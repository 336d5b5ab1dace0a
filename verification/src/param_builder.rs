//! Param Builder: interactive construction of a `llama-server` flag set.
//!
//! State and pure logic for the Param Builder tab. The curated flag table lives in
//! [`crate::param_registry`]; this module holds the editable state, its selection and
//! its single-line editor, the import of an existing entry's command block, and the
//! deterministic generation of a new one. The text-level edit that replaces an entry's
//! `cmd:` body lives in [`crate::cmd_block`].

pub use crate::cmd_block::{parse_cmd_block, replace_entry_cmd};
use crate::param_registry;
use crate::param_registry::{
    KindSpec,
    ParamKind,
    ParamValue,
    PresetValue,
    PresetValueSpec,
    ValueSpec,
    PRESET_COUNT,
    REGISTRY_LEN,
};
use crate::param_values;
pub use crate::param_values::{ParamValues, ValuesSpec};
use crate::swap_yaml;
use crate::{cmd_block, number, registry_table, text};
use vstd::prelude::*;

verus! {

/// Maximum length in bytes of one editable value or custom flag line, beyond which no
/// character is added.
pub const MAX_EDIT_LEN: usize = 240;

/// Which pane inside the Param Builder holds keyboard focus.
#[derive(Debug, Clone, Copy, PartialEq, Eq)]
pub enum ParamFocus {
    List,
    Preview,
}

/// One row of the param list: a category header, a registry param, a custom flag line,
/// or the add-custom placeholder.
#[derive(Debug, Clone, Copy, PartialEq, Eq)]
pub enum ParamRow {
    Header(&'static str),
    Param(usize),
    Custom(usize),
    AddCustom,
}

/// What a `ParamRow` is, with text as a character sequence.
pub enum RowSpec {
    Header(Seq<char>),
    Param(int),
    Custom(int),
    AddCustom,
}

impl View for ParamRow {
    type V = RowSpec;

    open spec fn view(&self) -> RowSpec {
        match *self {
            ParamRow::Header(title) => RowSpec::Header(title@),
            ParamRow::Param(index) => RowSpec::Param(index as int),
            ParamRow::Custom(index) => RowSpec::Custom(index as int),
            ParamRow::AddCustom => RowSpec::AddCustom,
        }
    }
}

impl ParamRow {
    pub fn is_selectable(&self) -> (selectable: bool)
        ensures
            selectable == !(self@ is Header),
    {
        match self {
            ParamRow::Header(_) => false,
            _ => true,
        }
    }
}

/// Target of an in-progress single-line edit.
#[derive(Debug, Clone, Copy, PartialEq, Eq)]
pub enum EditTarget {
    Param(usize),
    Custom(usize),
    CustomNew,
}

#[derive(Debug, Clone, PartialEq, Eq)]
pub struct EditState {
    pub target: EditTarget,
    pub buffer: String,
}

/// What an `EditState` holds, with text as a character sequence.
pub struct EditSpec {
    pub target: EditTarget,
    pub buffer: Seq<char>,
}

/// A key that the single-line editor tells apart.
#[derive(Debug, Clone, Copy, PartialEq, Eq)]
pub enum EditKey {
    Esc,
    Enter,
    Backspace,
    Char(char),
    /// Any other key.
    Other,
}

/// Overlay shown above the tab: preset picker or entry picker.
#[derive(Debug, Clone, Copy, PartialEq, Eq)]
pub enum ParamOverlay {
    Presets,
    /// `true` = import from the picked entry, `false` = save into it.
    Entries { import: bool },
}

#[derive(Debug, Clone)]
pub struct ParamBuilderState {
    pub values: ParamValues,
    /// Binary invocation line preserved from the imported entry
    /// (e.g. `taskset -c ${cpu_range} ${qwen38_master_server}`).
    pub binary: String,
    /// Model path imported from (or destined for) an entry's `-m`.
    pub model_path: Option<String>,
    pub focus: ParamFocus,
    pub selected: usize,
    pub scroll: usize,
    pub preview_scroll: usize,
    pub editing: Option<EditState>,
    pub overlay: Option<ParamOverlay>,
    pub overlay_selected: usize,
}

/// What a `ParamBuilderState` holds, with texts as character sequences.
pub struct BuilderSpec {
    pub values: ValuesSpec,
    pub binary: Seq<char>,
    pub model_path: Option<Seq<char>>,
    pub focus: ParamFocus,
    pub selected: int,
    pub scroll: int,
    pub preview_scroll: int,
    pub editing: Option<EditSpec>,
    pub overlay: Option<ParamOverlay>,
    pub overlay_selected: int,
}

/// What an in-progress edit holds.
pub open spec fn edit_view(editing: Option<EditState>) -> Option<EditSpec> {
    match editing {
        Some(edit) => Some(EditSpec { target: edit.target, buffer: edit.buffer@ }),
        None => None,
    }
}

impl View for ParamBuilderState {
    type V = BuilderSpec;

    open spec fn view(&self) -> BuilderSpec {
        BuilderSpec {
            values: self.values@,
            binary: self.binary@,
            model_path: swap_yaml::text_of(self.model_path),
            focus: self.focus,
            selected: self.selected as int,
            scroll: self.scroll as int,
            preview_scroll: self.preview_scroll as int,
            editing: edit_view(self.editing),
            overlay: self.overlay,
            overlay_selected: self.overlay_selected as int,
        }
    }
}

/// The rows for the first `n` flags: the flags in registry order, and a header with the
/// title of the category wherever a new one starts.
pub open spec fn param_rows(n: int) -> Seq<RowSpec>
    decreases n,
{
    if n <= 0 {
        Seq::empty()
    } else {
        let category = registry_table::flag_table()[n - 1].category;
        let earlier = if n == 1 || registry_table::flag_table()[n - 2].category != category {
            param_rows(n - 1).push(RowSpec::Header(category.title_text()))
        } else {
            param_rows(n - 1)
        };
        earlier.push(RowSpec::Param(n - 1))
    }
}

/// The rows of the list with `custom` custom lines.
pub open spec fn list_rows(custom: nat) -> Seq<RowSpec> {
    param_rows(REGISTRY_LEN as int).push(RowSpec::Header("Custom flags"@)) + Seq::new(
        custom,
        |i: int| RowSpec::Custom(i),
    ).push(RowSpec::AddCustom)
}

/// The number of rows that can be selected.
pub open spec fn count_selectable(rows: Seq<RowSpec>) -> nat
    decreases rows.len(),
{
    if rows.len() == 0 {
        0
    } else {
        count_selectable(rows.drop_last()) + if rows.last() is Header {
            0nat
        } else {
            1
        }
    }
}

/// The position, from `from` on, of the row that `k` selectable rows come before.
pub open spec fn nth_selectable(rows: Seq<RowSpec>, from: int, k: int) -> Option<int>
    decreases rows.len() - from,
{
    if from < 0 || from >= rows.len() {
        None
    } else if rows[from] is Header {
        nth_selectable(rows, from + 1, k)
    } else if k == 0 {
        Some(from)
    } else {
        nth_selectable(rows, from + 1, k - 1)
    }
}

/// The position of the row that is selected by `selected`: the first row that can be
/// selected where there are not that many.
pub open spec fn selected_position(rows: Seq<RowSpec>, selected: int) -> int {
    match nth_selectable(rows, 0, selected) {
        Some(i) => i,
        None => match nth_selectable(rows, 0, 0) {
            Some(i) => i,
            None => 0,
        },
    }
}

impl BuilderSpec {
    /// The rows of the list.
    pub open spec fn rows(self) -> Seq<RowSpec> {
        list_rows(self.values.custom.len())
    }

    /// The row that is selected.
    pub open spec fn selected_row(self) -> RowSpec {
        self.rows()[selected_position(self.rows(), self.selected)]
    }

    /// With the selection in range.
    pub open spec fn clamped(self) -> BuilderSpec {
        let count = count_selectable(self.rows()) as int;
        if self.selected >= count {
            BuilderSpec { selected: count - 1, ..self }
        } else {
            self
        }
    }
}

/// Every flag has a row, and the first of them comes after a header.
pub proof fn lemma_param_rows(n: int)
    requires
        0 <= n <= REGISTRY_LEN,
    ensures
        n <= param_rows(n).len() <= 2 * n,
        count_selectable(param_rows(n)) == n,
        n > 0 ==> param_rows(n)[0] is Header && param_rows(n)[1] == RowSpec::Param(0),
    decreases n,
{
    if n > 0 {
        lemma_param_rows(n - 1);
        let category = registry_table::flag_table()[n - 1].category;
        let before = param_rows(n - 1);
        let headed = before.push(RowSpec::Header(category.title_text()));
        assert(headed.drop_last() =~= before);
        let earlier = if n == 1 || registry_table::flag_table()[n - 2].category != category {
            headed
        } else {
            before
        };
        assert(count_selectable(earlier) == n - 1);
        assert(param_rows(n).drop_last() =~= earlier);
    }
}

pub proof fn lemma_count_selectable_concat(a: Seq<RowSpec>, b: Seq<RowSpec>)
    ensures
        count_selectable(a + b) == count_selectable(a) + count_selectable(b),
    decreases b.len(),
{
    if b.len() == 0 {
        assert(a + b =~= a);
    } else {
        lemma_count_selectable_concat(a, b.drop_last());
        assert((a + b).drop_last() =~= a + b.drop_last());
    }
}

pub proof fn lemma_custom_rows(custom: nat)
    ensures
        count_selectable(Seq::new(custom, |i: int| RowSpec::Custom(i))) == custom,
    decreases custom,
{
    if custom > 0 {
        lemma_custom_rows((custom - 1) as nat);
        assert(Seq::new(custom, |i: int| RowSpec::Custom(i)).drop_last() =~= Seq::new(
            (custom - 1) as nat,
            |i: int| RowSpec::Custom(i),
        ));
    }
}

/// Every flag, every custom line and the placeholder can be selected, and nothing else.
pub proof fn selectable_rows(custom: nat)
    ensures
        count_selectable(list_rows(custom)) == REGISTRY_LEN + custom + 1,
{
    let head = param_rows(REGISTRY_LEN as int);
    let headed = head.push(RowSpec::Header("Custom flags"@));
    let lines = Seq::new(custom, |i: int| RowSpec::Custom(i));
    lemma_param_rows(REGISTRY_LEN as int);
    lemma_custom_rows(custom);
    assert(headed.drop_last() =~= head);
    assert(lines.push(RowSpec::AddCustom).drop_last() =~= lines);
    lemma_count_selectable_concat(headed, lines.push(RowSpec::AddCustom));
}

/// The row at position `i` is the one that is selected by the number of selectable rows
/// before it.
pub proof fn lemma_nth_selectable_is(rows: Seq<RowSpec>, from: int, i: int)
    requires
        0 <= from <= i < rows.len(),
        !(rows[i] is Header),
    ensures
        nth_selectable(rows, from, count_selectable(rows.subrange(from, i)) as int) == Some(i),
    decreases i - from,
{
    let part = rows.subrange(from, i);
    if from < i {
        lemma_nth_selectable_is(rows, from + 1, i);
        let first = seq![rows[from]];
        let tail = rows.subrange(from + 1, i);
        assert(part =~= first + tail);
        lemma_count_selectable_concat(first, tail);
        assert(first.drop_last() =~= Seq::<RowSpec>::empty());
        reveal_with_fuel(count_selectable, 2);
    }
}

/// What `nth_selectable` finds can be selected, and `k` selectable rows come before it.
pub proof fn lemma_nth_selectable(rows: Seq<RowSpec>, from: int, k: int)
    requires
        0 <= from <= rows.len(),
        0 <= k,
    ensures
        match nth_selectable(rows, from, k) {
            Some(i) => from <= i < rows.len() && !(rows[i] is Header) && count_selectable(
                rows.subrange(from, i),
            ) == k,
            None => count_selectable(rows.skip(from)) <= k,
        },
    decreases rows.len() - from,
{
    if from == rows.len() {
        assert(rows.skip(from) =~= Seq::<RowSpec>::empty());
    } else {
        let first = seq![rows[from]];
        let next = if rows[from] is Header {
            k
        } else {
            k - 1
        };
        assert(first.drop_last() =~= Seq::<RowSpec>::empty());
        reveal_with_fuel(count_selectable, 2);
        if rows[from] is Header || k > 0 {
            lemma_nth_selectable(rows, from + 1, next);
            match nth_selectable(rows, from + 1, next) {
                Some(i) => {
                    assert(rows.subrange(from, i) =~= first + rows.subrange(from + 1, i));
                    lemma_count_selectable_concat(first, rows.subrange(from + 1, i));
                },
                None => {
                    assert(rows.skip(from) =~= first + rows.skip(from + 1));
                    lemma_count_selectable_concat(first, rows.skip(from + 1));
                },
            }
        } else {
            assert(rows.subrange(from, from) =~= Seq::<RowSpec>::empty());
        }
    }
}

/// The selected row is always a row of the list that can be selected; where the
/// selection is in range, that many selectable rows come before it.
pub proof fn selected_row_is_selectable(custom: nat, selected: int)
    requires
        0 <= selected,
    ensures
        ({
            let rows = list_rows(custom);
            let i = selected_position(rows, selected);
            &&& 0 <= i < rows.len()
            &&& !(rows[i] is Header)
            &&& selected < count_selectable(rows) ==> count_selectable(rows.take(i)) == selected
        }),
{
    let rows = list_rows(custom);
    selectable_rows(custom);
    assert(rows.skip(0) =~= rows);
    lemma_nth_selectable(rows, 0, selected);
    lemma_nth_selectable(rows, 0, 0);
    let i = selected_position(rows, selected);
    assert(rows.subrange(0, i) =~= rows.take(i));
}

/// Selecting the row at a position that can be selected, by the number of selectable
/// rows before it, selects the row at that position.
pub proof fn row_position_round_trip(custom: nat, position: int)
    requires
        0 <= position < list_rows(custom).len(),
        !(list_rows(custom)[position] is Header),
    ensures
        selected_position(
            list_rows(custom),
            count_selectable(list_rows(custom).take(position)) as int,
        ) == position,
{
    let rows = list_rows(custom);
    lemma_nth_selectable_is(rows, 0, position);
    assert(rows.subrange(0, position) =~= rows.take(position));
}

/// The value of an unsigned number read as a signed one of the same width.
pub open spec fn as_signed(n: usize) -> int {
    if n <= isize::MAX {
        n as int
    } else {
        n - usize::MAX - 1
    }
}

impl BuilderSpec {
    /// With the selection moved by `delta` rows, and around the ends of the list.
    pub open spec fn moved_by(self, delta: int) -> BuilderSpec {
        BuilderSpec {
            selected: (as_signed(self.selected as usize) + delta) % (count_selectable(
                self.rows(),
            ) as int),
            ..self
        }
    }
}

impl Default for ParamBuilderState {
    fn default() -> (state: Self)
        ensures
            state@ == (BuilderSpec {
                values: ValuesSpec::unset(REGISTRY_LEN as nat),
                binary: "llama-server"@,
                model_path: None,
                focus: ParamFocus::List,
                selected: 0,
                scroll: 0,
                preview_scroll: 0,
                editing: None,
                overlay: None,
                overlay_selected: 0,
            }),
            state@.well_formed(),
    {
        ParamBuilderState {
            values: ParamValues::new(),
            binary: "llama-server".to_owned(),
            model_path: None,
            focus: ParamFocus::List,
            selected: 0,
            scroll: 0,
            preview_scroll: 0,
            editing: None,
            overlay: None,
            overlay_selected: 0,
        }
    }
}

impl ParamBuilderState {
    /// Flattened display rows: category headers with their params, then the custom-flag
    /// section.
    pub fn rows(&self) -> (rows: Vec<ParamRow>)
        ensures
            text::views(rows@) == self@.rows(),
    {
        broadcast use text::lemma_views_push;

        let mut rows: Vec<ParamRow> = Vec::new();
        assert(text::views(rows@) =~= param_rows(0));
        let mut i: usize = 0;
        while i < REGISTRY_LEN
            invariant
                i <= REGISTRY_LEN,
                text::views(rows@) == param_rows(i as int),
            decreases REGISTRY_LEN - i,
        {
            let category = registry_table::registry_def(i).category;
            if i == 0 || registry_table::registry_def(i - 1).category != category {
                rows.push(ParamRow::Header(category.title()));
            }
            rows.push(ParamRow::Param(i));
            i = i + 1;
        }
        rows.push(ParamRow::Header("Custom flags"));
        let ghost head = text::views(rows@);
        let ghost lines = Seq::new(self@.values.custom.len(), |j: int| RowSpec::Custom(j));
        for j in 0..self.values.custom.len()
            invariant
                lines == Seq::new(self@.values.custom.len(), |j: int| RowSpec::Custom(j)),
                text::views(rows@) == head + lines.take(j as int),
        {
            let ghost earlier = rows@;
            rows.push(ParamRow::Custom(j));
            proof {
                text::lemma_views_push(earlier, rows@.last());
                assert(text::views(rows@) =~= head + lines.take(j + 1));
            }
        }
        let ghost earlier = rows@;
        rows.push(ParamRow::AddCustom);
        proof {
            text::lemma_views_push(earlier, rows@.last());
            assert(text::views(rows@) =~= self@.rows());
        }
        rows
    }

    /// The number of rows that can be selected.
    pub fn selectable_count(rows: &[ParamRow]) -> (count: usize)
        ensures
            count == count_selectable(text::views(rows@)),
            count <= rows@.len(),
    {
        let ghost all = text::views(rows@);
        let mut count: usize = 0;
        for i in 0..rows.len()
            invariant
                all == text::views(rows@),
                count == count_selectable(all.take(i as int)),
                count <= i,
        {
            proof {
                assert(all.take(i + 1).drop_last() =~= all.take(i as int));
                assert(all.take(i + 1).last() == rows@[i as int]@);
            }
            if rows[i].is_selectable() {
                count = count + 1;
            }
        }
        assert(all.take(rows@.len() as int) =~= all);
        count
    }

    /// Index of the `selected`-th selectable row in `rows`.
    pub fn selectable_index(rows: &[ParamRow], selected: usize) -> (index: Option<usize>)
        ensures
            match index {
                Some(i) => i < rows@.len() && nth_selectable(
                    text::views(rows@),
                    0,
                    selected as int,
                ) == Some(i as int),
                None => nth_selectable(text::views(rows@), 0, selected as int) is None,
            },
    {
        let ghost all = text::views(rows@);
        let mut left: usize = selected;
        let mut i: usize = 0;
        while i < rows.len()
            invariant
                i <= rows@.len(),
                all == text::views(rows@),
                nth_selectable(all, 0, selected as int) == nth_selectable(
                    all,
                    i as int,
                    left as int,
                ),
            decreases rows@.len() - i,
        {
            assert(all[i as int] == rows@[i as int]@);
            if rows[i].is_selectable() {
                if left == 0 {
                    return Some(i);
                }
                left = left - 1;
            }
            i = i + 1;
        }
        None
    }

    /// Move selection by `delta` selectable rows, skipping headers, round the ends.
    pub fn move_selection(&mut self, delta: isize)
        requires
            isize::MIN <= as_signed(old(self).selected) + delta <= isize::MAX,
        ensures
            final(self)@ == old(self)@.moved_by(delta as int),
    {
        let rows = self.rows();
        let count: usize = Self::selectable_count(rows.as_slice());
        proof {
            selectable_rows(self@.values.custom.len());
        }
        let at: i128 = if self.selected <= isize::MAX as usize {
            self.selected as i128
        } else {
            self.selected as i128 - usize::MAX as i128 - 1
        };
        let moved: i128 = at + delta as i128;
        let total: i128 = count as i128;
        let next: i128 = match moved.checked_rem_euclid(total) {
            Some(next) => next,
            None => 0,
        };
        self.selected = next as usize;
    }

    /// The row that is selected.
    pub fn selected_row(&self) -> (row: ParamRow)
        ensures
            row@ == self@.selected_row(),
    {
        self.selected_row_position().1
    }

    /// `(row index into `rows()`, row)` of the current selection.
    pub fn selected_row_position(&self) -> (at: (usize, ParamRow))
        ensures
            at.0 == selected_position(self@.rows(), self@.selected),
            at.1@ == self@.selected_row(),
    {
        let rows = self.rows();
        proof {
            selected_row_is_selectable(self@.values.custom.len(), self@.selected);
        }
        let index: usize = match Self::selectable_index(rows.as_slice(), self.selected) {
            Some(index) => index,
            None => match Self::selectable_index(rows.as_slice(), 0) {
                Some(index) => index,
                None => 0,
            },
        };
        assert(text::views(rows@)[index as int] == rows@[index as int]@);
        (index, rows[index])
    }

    /// Jump the selection to a selectable row by its position in `rows()`.
    pub fn select_row_position(&mut self, position: usize)
        ensures
            final(self)@ == if position < old(self)@.rows().len() && !(
                old(self)@.rows()[position as int] is Header) {
                BuilderSpec {
                    selected: count_selectable(old(self)@.rows().take(position as int)) as int,
                    ..old(self)@
                }
            } else {
                old(self)@
            },
    {
        let rows = self.rows();
        let ghost all = text::views(rows@);
        assert(all.len() == rows@.len());
        if position >= rows.len() {
            return;
        }
        assert(all[position as int] == rows@[position as int]@);
        if !rows[position].is_selectable() {
            return;
        }
        let before = vstd::slice::slice_subrange(rows.as_slice(), 0, position);
        assert(text::views(before@) =~= all.take(position as int));
        self.selected = Self::selectable_count(before);
    }

    /// Clamp `selected` into range (e.g. after custom rows were removed).
    pub fn clamp_selection(&mut self)
        ensures
            final(self)@ == old(self)@.clamped(),
    {
        let rows = self.rows();
        let count: usize = Self::selectable_count(rows.as_slice());
        proof {
            selectable_rows(self@.values.custom.len());
        }
        if self.selected >= count {
            self.selected = count - 1;
        }
    }
}

/// The next value of a flag that is cycled through its values, or none for a flag whose
/// value is typed in. The last value is followed by no value.
pub open spec fn next_value(kind: KindSpec, value: ValueSpec) -> Option<ValueSpec> {
    match kind {
        KindSpec::Toggle => if value is On {
            Some(ValueSpec::Unset)
        } else {
            Some(ValueSpec::On)
        },
        KindSpec::TriState => match value {
            ValueSpec::Unset => Some(ValueSpec::On),
            ValueSpec::On => Some(ValueSpec::Off),
            _ => Some(ValueSpec::Unset),
        },
        KindSpec::Choice(options) => match value {
            ValueSpec::Unset => Some(ValueSpec::Choice(0)),
            ValueSpec::Choice(current) => if current + 1 < options.len() {
                Some(ValueSpec::Choice(current + 1))
            } else {
                Some(ValueSpec::Unset)
            },
            _ => Some(ValueSpec::Unset),
        },
        KindSpec::Integer { .. } => None,
        KindSpec::Text => None,
    }
}

/// The status message for a new value of a flag.
pub open spec fn value_message(i: int, value: ValueSpec) -> Seq<char> {
    let def = registry_table::flag_table()[i];
    def.label + " = "@ + param_registry::display_text(value, def.kind)
}

/// The status message after cycling the value of a flag.
pub open spec fn cycle_message(i: int, value: ValueSpec) -> Seq<char> {
    let def = registry_table::flag_table()[i];
    if def.kind is Toggle {
        def.label + " toggled"@
    } else {
        value_message(i, value)
    }
}

/// What the editor starts with for a target.
pub open spec fn edit_buffer(values: ValuesSpec, target: EditTarget) -> Seq<char> {
    match target {
        EditTarget::Param(i) => match values.values[i as int] {
            ValueSpec::Text(t) => t,
            ValueSpec::Integer(v) => number::decimal_int(v),
            _ => Seq::empty(),
        },
        EditTarget::Custom(i) => values.custom[i as int],
        EditTarget::CustomNew => Seq::empty(),
    }
}

/// Whether a target exists.
pub open spec fn is_target(values: ValuesSpec, target: EditTarget) -> bool {
    match target {
        EditTarget::Param(i) => i < REGISTRY_LEN && i < values.values.len(),
        EditTarget::Custom(i) => i < values.custom.len(),
        EditTarget::CustomNew => true,
    }
}

/// A number within bounds.
pub open spec fn bounded(v: int, min: int, max: int) -> int {
    if v < min {
        min
    } else if v > max {
        max
    } else {
        v
    }
}

impl BuilderSpec {
    /// Whether there is a value for every flag, and the target of an edit exists.
    pub open spec fn well_formed(self) -> bool {
        &&& self.values.values.len() >= REGISTRY_LEN
        &&& match self.editing {
            Some(edit) => is_target(self.values, edit.target),
            None => true,
        }
    }

    /// With an edit of a target begun.
    pub open spec fn edit_started(self, target: EditTarget) -> BuilderSpec {
        BuilderSpec {
            editing: Some(EditSpec { target, buffer: edit_buffer(self.values, target) }),
            ..self
        }
    }

    /// After the selected row was activated, and the status message.
    pub open spec fn activated(self) -> (BuilderSpec, Option<Seq<char>>) {
        match self.selected_row() {
            RowSpec::Header(_) => (self, None),
            RowSpec::Param(i) => match next_value(
                registry_table::flag_table()[i].kind,
                self.values.values[i],
            ) {
                Some(v) => (
                    BuilderSpec { values: self.values.with_value(i, v), ..self },
                    Some(cycle_message(i, v)),
                ),
                None => (self.edit_started(EditTarget::Param(i as usize)), Some(Seq::empty())),
            },
            RowSpec::Custom(i) => (
                self.edit_started(EditTarget::Custom(i as usize)),
                Some(Seq::empty()),
            ),
            RowSpec::AddCustom => (self.edit_started(EditTarget::CustomNew), Some(Seq::empty())),
        }
    }

    /// Where the selected row is a number: its flag, its value before, and what `steps`
    /// steps add to it.
    pub open spec fn adjustment(self, steps: int) -> Option<(int, int, int)> {
        match self.selected_row() {
            RowSpec::Param(i) => match registry_table::flag_table()[i].kind {
                KindSpec::Integer { min, max, step } => Some(
                    (
                        i,
                        match self.values.values[i] {
                            ValueSpec::Integer(v) => v,
                            _ => bounded(0, min, max),
                        },
                        step * steps,
                    ),
                ),
                _ => None,
            },
            _ => None,
        }
    }

    /// After the selected number was adjusted by `steps` steps, and the status message.
    pub open spec fn adjusted(self, steps: int) -> (BuilderSpec, Option<Seq<char>>) {
        match self.adjustment(steps) {
            Some((i, current, delta)) => match registry_table::flag_table()[i].kind {
                KindSpec::Integer { min, max, step } => {
                    let v = ValueSpec::Integer(bounded(current + delta, min, max));
                    (
                        BuilderSpec { values: self.values.with_value(i, v), ..self },
                        Some(value_message(i, v)),
                    )
                },
                _ => (self, None),
            },
            None => (self, None),
        }
    }
}

/// Rows point to flags and custom lines that exist.
pub proof fn lemma_row_in_range(custom: nat, p: int)
    requires
        0 <= p < list_rows(custom).len(),
    ensures
        match list_rows(custom)[p] {
            RowSpec::Param(i) => 0 <= i < REGISTRY_LEN,
            RowSpec::Custom(i) => 0 <= i < custom,
            _ => true,
        },
{
    let head = param_rows(REGISTRY_LEN as int);
    if p < head.len() {
        assert(list_rows(custom)[p] == head[p]);
        lemma_param_row_in_range(REGISTRY_LEN as int, p);
    }
}

proof fn lemma_param_row_in_range(n: int, p: int)
    requires
        0 <= p < param_rows(n).len(),
    ensures
        match param_rows(n)[p] {
            RowSpec::Param(i) => 0 <= i < n,
            RowSpec::Custom(i) => false,
            RowSpec::AddCustom => false,
            RowSpec::Header(_) => true,
        },
    decreases n,
{
    if n > 0 && p < param_rows(n - 1).len() {
        lemma_param_row_in_range(n - 1, p);
        assert(param_rows(n)[p] == param_rows(n - 1)[p]);
    }
}

/// The empty text.
fn no_text() -> (text: String)
    ensures
        text@ == Seq::<char>::empty(),
{
    let none: Vec<char> = Vec::new();
    text::string_of(none.as_slice())
}

/// A label followed by more text.
fn labelled(label: &str, more: &str) -> (message: String)
    ensures
        message@ == label@ + more@,
{
    let mut message = label.to_owned();
    message.append(more);
    message
}

/// The status message for a new value of a flag.
fn describe_value(index: usize, value: &ParamValue) -> (message: String)
    requires
        index < REGISTRY_LEN,
    ensures
        message@ == value_message(index as int, value@),
{
    let def = registry_table::registry_def(index);
    let mut message = labelled(def.label, " = ");
    message.append(value.display(&def).as_str());
    message
}

/// The next value of a flag that is cycled through its values.
fn cycle_value(kind: ParamKind, value: &ParamValue) -> (next: Option<ParamValue>)
    ensures
        match next {
            Some(v) => next_value(kind@, value@) == Some(v@),
            None => next_value(kind@, value@) is None,
        },
{
    match kind {
        ParamKind::Toggle => match value {
            ParamValue::On => Some(ParamValue::Unset),
            _ => Some(ParamValue::On),
        },
        ParamKind::TriState => match value {
            ParamValue::Unset => Some(ParamValue::On),
            ParamValue::On => Some(ParamValue::Off),
            _ => Some(ParamValue::Unset),
        },
        ParamKind::Choice(options) => match value {
            ParamValue::Unset => Some(ParamValue::Choice(0)),
            ParamValue::Choice(current) => if *current < options.len() && options.len() - *current
                > 1 {
                Some(ParamValue::Choice(*current + 1))
            } else {
                Some(ParamValue::Unset)
            },
            _ => Some(ParamValue::Unset),
        },
        ParamKind::Integer { .. } => None,
        ParamKind::Text => None,
    }
}

impl ParamBuilderState {
    /// Cycle or begin editing the selected row's value. Returns a status message when
    /// the action is worth reporting.
    pub fn activate(&mut self) -> (message: Option<String>)
        requires
            match old(self)@.selected_row() {
                RowSpec::Param(i) => i < old(self)@.values.values.len(),
                _ => true,
            },
        ensures
            (final(self)@, swap_yaml::text_of(message)) == old(self)@.activated(),
            old(self)@.well_formed() ==> final(self)@.well_formed(),
            message is Some,
    {
        let ghost before = self@;
        proof {
            selected_row_is_selectable(before.values.custom.len(), before.selected);
            lemma_row_in_range(
                before.values.custom.len(),
                selected_position(before.rows(), before.selected),
            );
        }
        match self.selected_row() {
            ParamRow::Header(_) => None,
            ParamRow::Param(index) => {
                let def = registry_table::registry_def(index);
                assert(self.values.values@[index as int]@ == before.values.values[index as int]);
                match cycle_value(def.kind, &self.values.values[index]) {
                    Some(value) => {
                        let message = match def.kind {
                            ParamKind::Toggle => labelled(def.label, " toggled"),
                            _ => describe_value(index, &value),
                        };
                        self.values.set(index, value);
                        Some(message)
                    },
                    None => {
                        self.start_edit_at(EditTarget::Param(index));
                        Some(no_text())
                    },
                }
            },
            ParamRow::Custom(index) => {
                self.start_edit_at(EditTarget::Custom(index));
                Some(no_text())
            },
            ParamRow::AddCustom => {
                self.start_edit_at(EditTarget::CustomNew);
                Some(no_text())
            },
        }
    }

    /// Adjust the selected numeric value by signed `steps` of its step size.
    pub fn adjust(&mut self, steps: isize) -> (message: Option<String>)
        requires
            match old(self)@.adjustment(steps as int) {
                Some((i, current, delta)) => i < old(self)@.values.values.len() && i64::MIN <= delta
                    <= i64::MAX && i64::MIN <= current + delta <= i64::MAX,
                None => true,
            },
        ensures
            (final(self)@, swap_yaml::text_of(message)) == old(self)@.adjusted(steps as int),
            old(self)@.well_formed() ==> final(self)@.well_formed(),
    {
        let ghost before = self@;
        proof {
            selected_row_is_selectable(before.values.custom.len(), before.selected);
            lemma_row_in_range(
                before.values.custom.len(),
                selected_position(before.rows(), before.selected),
            );
        }
        let index: usize = match self.selected_row() {
            ParamRow::Param(index) => index,
            _ => {
                return None;
            },
        };
        match registry_table::registry_def(index).kind {
            ParamKind::Integer { min, max, step } => {
                proof {
                    crate::registry_laws::registry_is_well_formed(index as int);
                    assert(self.values.values@[index as int]@
                        == before.values.values[index as int]);
                }
                let current: i64 = match &self.values.values[index] {
                    ParamValue::Integer(value) => *value,
                    _ => if min > 0 {
                        min
                    } else if max < 0 {
                        max
                    } else {
                        0
                    },
                };
                let moved: i64 = current + step * steps as i64;
                let next: i64 = if moved < min {
                    min
                } else if moved > max {
                    max
                } else {
                    moved
                };
                let value = ParamValue::Integer(next);
                let message = describe_value(index, &value);
                self.values.set(index, value);
                Some(message)
            },
            _ => None,
        }
    }

    /// Begin editing a target.
    pub fn start_edit_at(&mut self, target: EditTarget)
        requires
            match target {
                EditTarget::Param(i) => i < old(self)@.values.values.len(),
                EditTarget::Custom(i) => i < old(self)@.values.custom.len(),
                EditTarget::CustomNew => true,
            },
        ensures
            final(self)@ == old(self)@.edit_started(target),
    {
        let buffer = match target {
            EditTarget::Param(index) => {
                assert(self.values.values@[index as int]@ == self@.values.values[index as int]);
                match &self.values.values[index] {
                    ParamValue::Text(text) => text.clone(),
                    ParamValue::Integer(value) => text::string_of(
                        number::write_signed(*value).as_slice(),
                    ),
                    _ => no_text(),
                }
            },
            EditTarget::Custom(index) => self.values.custom[index].clone(),
            EditTarget::CustomNew => no_text(),
        };
        self.editing = Some(EditState { target, buffer });
    }

    pub fn editing(&self) -> (editing: bool)
        ensures
            editing == (self@.editing is Some),
    {
        self.editing.is_some()
    }
}

/// The status message for a text that is no number, given the text in quotes.
pub open spec fn not_integer_text(
    label: Seq<char>,
    quoted: Seq<char>,
    min: int,
    max: int,
) -> Seq<char> {
    label + ": "@ + quoted + " is not an integer ("@ + number::decimal_int(min) + "..="@
        + number::decimal_int(max) + ")"@
}

impl BuilderSpec {
    /// Whether a text, which is trimmed, is refused for the flag at position `i`: it is to
    /// be a number and is none.
    pub open spec fn is_refused(i: int, given: Seq<char>) -> bool {
        given.len() > 0 && registry_table::flag_table()[i].kind is Integer
            && number::parse_signed(given) is None
    }

    /// Whether the edit can be committed: its target exists. A text that is refused needs
    /// no place for its value.
    pub open spec fn can_commit(self) -> bool {
        match self.editing {
            Some(edit) => match edit.target {
                EditTarget::Param(i) => i < REGISTRY_LEN && (Self::is_refused(
                    i as int,
                    text::trim(edit.buffer),
                ) || i < self.values.values.len()),
                _ => is_target(self.values, edit.target),
            },
            None => true,
        }
    }

    /// After an edit of the flag at position `i` was committed with the text `given`,
    /// which is trimmed, and the status message. Blank text clears the value. A number
    /// is brought within the bounds of the flag; text that is no number keeps the
    /// editor open.
    pub open spec fn param_committed(self, i: int, given: Seq<char>) -> (
        BuilderSpec,
        Option<Seq<char>>,
    ) {
        let def = registry_table::flag_table()[i];
        if given.len() == 0 {
            (
                BuilderSpec {
                    values: self.values.with_value(i, ValueSpec::Unset),
                    editing: None,
                    ..self
                },
                Some(def.label + " cleared"@),
            )
        } else {
            match def.kind {
                KindSpec::Integer { min, max, .. } => match number::parse_signed(given) {
                    Some(v) => (
                        BuilderSpec {
                            values: self.values.with_value(
                                i,
                                ValueSpec::Integer(bounded(v, min, max)),
                            ),
                            editing: None,
                            ..self
                        }.clamped(),
                        Some(Seq::empty()),
                    ),
                    None => (
                        self,
                        Some(not_integer_text(def.label, swap_yaml::debug_text(given), min, max)),
                    ),
                },
                _ => (
                    BuilderSpec {
                        values: self.values.with_value(i, ValueSpec::Text(given)),
                        editing: None,
                        ..self
                    }.clamped(),
                    Some(Seq::empty()),
                ),
            }
        }
    }

    /// After an edit of a custom line was committed with the text `given`, which is
    /// trimmed. Blank text removes the line.
    pub open spec fn custom_committed(self, i: int, given: Seq<char>) -> BuilderSpec {
        let custom = if given.len() == 0 {
            self.values.custom.remove(i)
        } else {
            self.values.custom.update(i, given)
        };
        BuilderSpec { values: ValuesSpec { custom, ..self.values }, editing: None, ..self }
            .clamped()
    }

    /// After a new custom line was committed with the text `given`, which is trimmed.
    /// Blank text adds none.
    pub open spec fn new_custom_committed(self, given: Seq<char>) -> BuilderSpec {
        let values = if given.len() == 0 {
            self.values
        } else {
            self.values.with_custom(given)
        };
        BuilderSpec { values, editing: None, ..self }.clamped()
    }

    /// After the edit was committed, and the status message.
    pub open spec fn committed(self) -> (BuilderSpec, Option<Seq<char>>) {
        match self.editing {
            None => (self, None),
            Some(edit) => {
                let given = text::trim(edit.buffer);
                match edit.target {
                    EditTarget::Param(i) => self.param_committed(i as int, given),
                    EditTarget::Custom(i) => (
                        self.custom_committed(i as int, given),
                        Some(Seq::empty()),
                    ),
                    EditTarget::CustomNew => (
                        self.new_custom_committed(given),
                        Some(Seq::empty()),
                    ),
                }
            },
        }
    }

    /// With another text in the editor.
    pub open spec fn retyped(self, buffer: Seq<char>) -> BuilderSpec {
        match self.editing {
            Some(edit) => BuilderSpec { editing: Some(EditSpec { buffer, ..edit }), ..self },
            None => self,
        }
    }

    /// After a key was fed to the editor, and the status message.
    pub open spec fn keyed(self, key: EditKey) -> (BuilderSpec, Option<Seq<char>>) {
        match self.editing {
            None => (self, None),
            Some(edit) => match key {
                EditKey::Esc => (
                    BuilderSpec { editing: None, ..self },
                    Some("edit cancelled"@),
                ),
                EditKey::Enter => self.committed(),
                EditKey::Backspace => (
                    if edit.buffer.len() > 0 {
                        self.retyped(edit.buffer.drop_last())
                    } else {
                        self
                    },
                    None,
                ),
                EditKey::Char(c) => (
                    if text::byte_len(edit.buffer) < MAX_EDIT_LEN {
                        self.retyped(edit.buffer.push(c))
                    } else {
                        self
                    },
                    None,
                ),
                EditKey::Other => (self, None),
            },
        }
    }

    /// After the selected custom line was removed, and the status message.
    pub open spec fn custom_deleted(self) -> (BuilderSpec, Option<Seq<char>>) {
        match self.selected_row() {
            RowSpec::Custom(i) => (
                BuilderSpec {
                    values: ValuesSpec { custom: self.values.custom.remove(i), ..self.values },
                    ..self
                }.clamped(),
                Some("custom flag removed"@),
            ),
            _ => (self, None),
        }
    }
}

/// The status message for a text that is no number, given the text in quotes.
pub fn not_integer_message(label: &str, quoted: &str, min: i64, max: i64) -> (message: String)
    ensures
        message@ == not_integer_text(label@, quoted@, min as int, max as int),
{
    let mut message = labelled(label, ": ");
    message.append(quoted);
    message.append(" is not an integer (");
    message.append(text::string_of(number::write_signed(min).as_slice()).as_str());
    message.append("..=");
    message.append(text::string_of(number::write_signed(max).as_slice()).as_str());
    message.append(")");
    message
}

impl ParamBuilderState {
    /// Feed a key to the active editor. Returns a status message on commit (empty =
    /// silent success) and `None` while still editing.
    pub fn edit_key(&mut self, key: EditKey) -> (message: Option<String>)
        requires
            key is Enter ==> old(self)@.can_commit(),
        ensures
            (final(self)@, swap_yaml::text_of(message)) == old(self)@.keyed(key),
            old(self)@.well_formed() ==> final(self)@.well_formed(),
    {
        let (target, buffer) = match &self.editing {
            Some(edit) => (edit.target, text::chars_of(edit.buffer.as_str())),
            None => {
                return None;
            },
        };
        match key {
            EditKey::Esc => {
                self.editing = None;
                Some("edit cancelled".to_owned())
            },
            EditKey::Enter => self.commit_edit(),
            EditKey::Backspace => {
                if buffer.len() > 0 {
                    let kept = vstd::slice::slice_subrange(buffer.as_slice(), 0, buffer.len() - 1);
                    assert(kept@ =~= buffer@.drop_last());
                    self.editing = Some(EditState { target, buffer: text::string_of(kept) });
                }
                None
            },
            EditKey::Char(c) => {
                if text::count_bytes(buffer.as_slice()) < MAX_EDIT_LEN as u128 {
                    let mut typed = text::string_of(buffer.as_slice());
                    typed.push(c);
                    self.editing = Some(EditState { target, buffer: typed });
                }
                None
            },
            EditKey::Other => None,
        }
    }

    /// Whether the active edit can be committed, as [`Self::commit_edit`] needs it.
    pub fn can_commit(&self) -> (can: bool)
        ensures
            can == self@.can_commit(),
    {
        let edit = match &self.editing {
            Some(edit) => edit,
            None => {
                return true;
            },
        };
        match edit.target {
            EditTarget::Param(index) => {
                if index >= REGISTRY_LEN {
                    return false;
                }
                if index < self.values.values.len() {
                    return true;
                }
                let buffer = text::chars_of(edit.buffer.as_str());
                let given = text::trimmed(buffer.as_slice());
                match registry_table::registry_def(index).kind {
                    ParamKind::Integer { .. } => given.len() > 0 && number::read_signed(
                        given,
                    ).is_none(),
                    _ => false,
                }
            },
            EditTarget::Custom(index) => index < self.values.custom.len(),
            EditTarget::CustomNew => true,
        }
    }

    /// Commit the active edit: store its text and close the editor.
    pub fn commit_edit(&mut self) -> (message: Option<String>)
        requires
            old(self)@.can_commit(),
        ensures
            (final(self)@, swap_yaml::text_of(message)) == old(self)@.committed(),
            old(self)@.well_formed() ==> final(self)@.well_formed(),
    {
        let ghost before = self@;
        let (target, buffer) = match &self.editing {
            Some(edit) => (edit.target, text::chars_of(edit.buffer.as_str())),
            None => {
                return None;
            },
        };
        let blank = text::trimmed(buffer.as_slice()).len() == 0;
        let given = text::string_of(text::trimmed(buffer.as_slice()));
        match target {
            EditTarget::Param(index) => {
                let def = registry_table::registry_def(index);
                if blank {
                    self.values.set(index, ParamValue::Unset);
                    self.editing = None;
                    return Some(labelled(def.label, " cleared"));
                }
                match def.kind {
                    ParamKind::Integer { min, max, .. } => {
                        proof {
                            crate::registry_laws::registry_is_well_formed(index as int);
                        }
                        let value: i64 = match number::read_signed(
                            text::trimmed(buffer.as_slice()),
                        ) {
                            Some(value) => value,
                            None => {
                                let quoted = swap_yaml::debug_string(given.as_str());
                                return Some(
                                    not_integer_message(def.label, quoted.as_str(), min, max),
                                );
                            },
                        };
                        let value: i64 = if value < min {
                            min
                        } else if value > max {
                            max
                        } else {
                            value
                        };
                        self.values.set(index, ParamValue::Integer(value));
                    },
                    _ => {
                        self.values.set(index, ParamValue::Text(given));
                    },
                }
            },
            EditTarget::Custom(index) => {
                if blank {
                    self.values.remove_custom(index);
                } else {
                    self.values.set_custom(index, given);
                }
            },
            EditTarget::CustomNew => {
                if !blank {
                    self.values.add_custom(given);
                }
            },
        }
        self.editing = None;
        self.clamp_selection();
        Some(no_text())
    }

    /// Remove the selected custom flag line. Returns a status message when a line was
    /// removed.
    pub fn delete_custom(&mut self) -> (message: Option<String>)
        ensures
            (final(self)@, swap_yaml::text_of(message)) == old(self)@.custom_deleted(),
            old(self)@.well_formed() && old(self)@.editing is None ==> final(self)@.well_formed(),
    {
        proof {
            selected_row_is_selectable(self@.values.custom.len(), self@.selected);
            lemma_row_in_range(
                self@.values.custom.len(),
                selected_position(self@.rows(), self@.selected),
            );
        }
        match self.selected_row() {
            ParamRow::Custom(index) => {
                self.values.remove_custom(index);
                self.clamp_selection();
                Some("custom flag removed".to_owned())
            },
            _ => None,
        }
    }
}

/// The value that a preset gives a flag of this kind.
pub open spec fn value_of_preset(kind: KindSpec, value: PresetValueSpec) -> ValueSpec {
    match value {
        PresetValueSpec::Int(v) => ValueSpec::Integer(v),
        PresetValueSpec::On => ValueSpec::On,
        PresetValueSpec::Off => ValueSpec::Off,
        PresetValueSpec::Opt(option) => match kind {
            KindSpec::Choice(options) => match param_registry::option_index(options, option) {
                Some(i) => ValueSpec::Choice(i),
                None => ValueSpec::Unset,
            },
            _ => ValueSpec::Text(option),
        },
        PresetValueSpec::Text(t) => ValueSpec::Text(t),
    }
}

/// The values with those of a preset stored one after the other. Flags that the registry
/// does not know are passed over.
pub open spec fn with_preset(
    values: ValuesSpec,
    pairs: Seq<(Seq<char>, PresetValueSpec)>,
) -> ValuesSpec
    decreases pairs.len(),
{
    if pairs.len() == 0 {
        values
    } else {
        let earlier = with_preset(values, pairs.drop_last());
        match param_registry::find_flag(pairs.last().0) {
            Some(i) => earlier.with_value(
                i,
                value_of_preset(registry_table::flag_table()[i].kind, pairs.last().1),
            ),
            None => earlier,
        }
    }
}

/// The invocation to use for an imported one.
pub open spec fn binary_or_default(binary: Seq<char>) -> Seq<char> {
    if text::trim(binary).len() == 0 {
        "llama-server"@
    } else {
        text::trim(binary)
    }
}

/// The lines of a command: the invocation, the model path, the flags, and the port,
/// which the router fills in.
pub open spec fn body_lines(
    binary: Seq<char>,
    model_path: Option<Seq<char>>,
    values: ValuesSpec,
) -> Seq<Seq<char>> {
    let model = match model_path {
        Some(path) => seq!["-m "@ + path],
        None => Seq::empty(),
    };
    seq![binary] + model + param_values::flag_lines(values) + seq!["--port ${PORT}"@]
}

impl BuilderSpec {
    /// With every value replaced by those of the preset at position `index`.
    pub open spec fn with_preset_applied(self, index: int) -> BuilderSpec {
        BuilderSpec {
            values: with_preset(
                ValuesSpec::unset(self.values.values.len()),
                registry_table::preset_table()[index].values,
            ),
            ..self
        }
    }

    /// With invocation, model path and values replaced by those of a command block.
    pub open spec fn imported(
        self,
        binary: Seq<char>,
        lines: Seq<Seq<Seq<char>>>,
        model_path: Option<Seq<char>>,
    ) -> BuilderSpec {
        BuilderSpec {
            values: param_values::read_lines(
                ValuesSpec::unset(self.values.values.len()),
                lines,
            ),
            binary: binary_or_default(binary),
            model_path,
            ..self
        }.clamped()
    }

    /// The lines of the command.
    pub open spec fn body(self) -> Seq<Seq<char>> {
        body_lines(self.binary, self.model_path, self.values)
    }
}

/// The value that a preset gives a flag.
fn store_preset(index: usize, value: PresetValue) -> (stored: ParamValue)
    requires
        index < REGISTRY_LEN,
    ensures
        stored@ == value_of_preset(registry_table::flag_table()[index as int].kind, value@),
{
    match value {
        PresetValue::Int(v) => ParamValue::Integer(v),
        PresetValue::On => ParamValue::On,
        PresetValue::Off => ParamValue::Off,
        PresetValue::Opt(option) => match registry_table::registry_def(index).kind_options() {
            Some(options) => match param_registry::find_option(
                options,
                text::chars_of(option).as_slice(),
            ) {
                Some(i) => ParamValue::Choice(i),
                None => ParamValue::Unset,
            },
            None => ParamValue::Text(option.to_owned()),
        },
        PresetValue::Text(t) => ParamValue::Text(t.to_owned()),
    }
}

/// The text in an optional string slice.
pub open spec fn str_view(s: Option<&str>) -> Option<Seq<char>> {
    match s {
        Some(t) => Some(t@),
        None => None,
    }
}

impl ParamBuilderState {
    /// Apply a built-in preset: clears all values first.
    pub fn apply_preset(&mut self, index: usize) -> (message: Option<String>)
        requires
            index < PRESET_COUNT ==> old(self)@.values.values.len() >= REGISTRY_LEN,
        ensures
            match message {
                Some(message) => index < PRESET_COUNT && final(self)@
                    == old(self)@.with_preset_applied(index as int) && message@
                    == "preset applied: "@ + registry_table::preset_table()[index as int].name,
                None => index >= PRESET_COUNT && final(self)@ == old(self)@,
            },
            final(self)@.values.values.len() == old(self)@.values.values.len(),
            old(self)@.well_formed() && old(self)@.editing is None ==> final(self)@.well_formed(),
    {
        if index >= PRESET_COUNT {
            return None;
        }
        let preset = registry_table::preset_entry(index);
        let ghost pairs = preset@.values;
        let ghost before = self@;
        self.values.clear();
        let ghost cleared = self@.values;
        for k in 0..preset.values.len()
            invariant
                pairs == preset@.values,
                cleared.values.len() >= REGISTRY_LEN,
                self@ == (BuilderSpec {
                    values: with_preset(cleared, pairs.take(k as int)),
                    ..before
                }),
                self@.values.values.len() == cleared.values.len(),
        {
            let (flag, value) = preset.values[k];
            proof {
                assert(pairs.take(k + 1).drop_last() =~= pairs.take(k as int));
                assert(pairs.take(k + 1).last() == (flag@, value@));
            }
            match param_registry::find_by_flag(flag) {
                Some(i) => {
                    let stored = store_preset(i, value);
                    self.values.set(i, stored);
                },
                None => {},
            }
        }
        assert(pairs.take(pairs.len() as int) =~= pairs);
        Some(labelled("preset applied: ", preset.name))
    }

    /// Import a parsed command block: `binary` is the invocation prefix, `token_lines`
    /// the remaining tokens grouped per line, `model_path` the entry's `-m`.
    pub fn import(
        &mut self,
        binary: &str,
        token_lines: &[Vec<String>],
        model_path: Option<&str>,
    )
        requires
            old(self)@.values.values.len() >= REGISTRY_LEN,
        ensures
            final(self)@ == old(self)@.imported(
                binary@,
                cmd_block::grid(token_lines@),
                str_view(model_path),
            ),
            final(self)@.values.values.len() == old(self)@.values.values.len(),
            old(self)@.editing is None ==> final(self)@.well_formed(),
    {
        self.values.clear();
        let chars = text::chars_of(binary);
        let kept = text::trimmed(chars.as_slice());
        self.binary = if kept.len() == 0 {
            "llama-server".to_owned()
        } else {
            text::string_of(kept)
        };
        self.model_path = match model_path {
            Some(path) => Some(path.to_owned()),
            None => None,
        };
        self.values.import_lines(token_lines);
        self.clamp_selection();
    }

    /// Full command-block body: binary line, `-m`, generated flags, and the port that
    /// the router manages.
    pub fn cmd_body(&self) -> (body: Vec<String>)
        requires
            self@.values.values.len() >= REGISTRY_LEN,
        ensures
            text::views(body@) == self@.body(),
    {
        broadcast use text::lemma_views_push;

        let mut body: Vec<String> = Vec::new();
        body.push(self.binary.clone());
        match &self.model_path {
            Some(path) => {
                body.push(labelled("-m ", path.as_str()));
            },
            None => {},
        }
        let ghost head = text::views(body@);
        let flags = self.values.generate_flags();
        let ghost lines = text::views(flags@);
        for i in 0..flags.len()
            invariant
                lines == text::views(flags@),
                text::views(body@) == head + lines.take(i as int),
        {
            let ghost earlier = body@;
            body.push(flags[i].clone());
            proof {
                text::lemma_views_push(earlier, body@.last());
                assert(text::views(body@) =~= head + lines.take(i + 1));
            }
        }
        body.push("--port ${PORT}".to_owned());
        assert(text::views(body@) =~= self@.body());
        body
    }

    /// Preview lines for the right pane (same content as `cmd_body`).
    pub fn preview_lines(&self) -> (lines: Vec<String>)
        requires
            self@.values.values.len() >= REGISTRY_LEN,
        ensures
            text::views(lines@) == self@.body(),
    {
        self.cmd_body()
    }
}

} // verus!
