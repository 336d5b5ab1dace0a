//! What selecting, adjusting, typing and applying a preset does to the values.

use crate::param_builder;
use crate::param_builder::{BuilderSpec, EditKey, EditSpec, EditTarget, RowSpec};
use crate::param_registry;
use crate::param_registry::{KindSpec, ParamCategory, PresetValueSpec, ValueSpec};
use crate::param_registry::{PRESET_COUNT, REGISTRY_LEN};
use crate::param_values::ValuesSpec;
use crate::text_laws::{is_core, is_gap};
use crate::{number, param_values, registry_laws, registry_table, round_trip, text, text_laws};
use vstd::prelude::*;

verus! {

proof fn lemma_param_position(n: int, j: int) -> (at: int)
    requires
        0 <= j < n <= REGISTRY_LEN,
    ensures
        0 <= at < param_builder::param_rows(n).len(),
        param_builder::param_rows(n)[at] == RowSpec::Param(j),
        param_builder::count_selectable(param_builder::param_rows(n).take(at)) == j,
    decreases n,
{
    let rows = param_builder::param_rows(n);
    let earlier = param_builder::param_rows(n - 1);
    let headed = rows.drop_last();
    param_builder::lemma_param_rows(n);
    if j == n - 1 {
        let at = rows.len() - 1;
        assert(rows.take(at) =~= headed);
        at
    } else {
        let at = lemma_param_position(n - 1, j);
        assert(rows.take(at) =~= earlier.take(at));
        at
    }
}

/// The flags can be selected in the order of the registry, then the custom lines in their
/// order, then the row that adds one. Any other number selects the first flag.
pub proof fn rows_are_selected_in_order(state: BuilderSpec)
    ensures
        0 <= state.selected < REGISTRY_LEN ==> state.selected_row() == RowSpec::Param(
            state.selected,
        ),
        REGISTRY_LEN <= state.selected < REGISTRY_LEN + state.values.custom.len()
            ==> state.selected_row() == RowSpec::Custom(state.selected - REGISTRY_LEN),
        state.selected == REGISTRY_LEN + state.values.custom.len() ==> state.selected_row()
            == RowSpec::AddCustom,
        state.selected > REGISTRY_LEN + state.values.custom.len() ==> state.selected_row()
            == RowSpec::Param(0),
{
    let custom = state.values.custom.len();
    let head = param_builder::param_rows(REGISTRY_LEN as int);
    let headed = head.push(RowSpec::Header("Custom flags"@));
    let lines = Seq::new(custom, |i: int| RowSpec::Custom(i));
    let rows = param_builder::list_rows(custom);
    let n = head.len() as int;
    param_builder::lemma_param_rows(REGISTRY_LEN as int);
    assert(headed.drop_last() =~= head);
    if 0 <= state.selected < REGISTRY_LEN {
        let at = lemma_param_position(REGISTRY_LEN as int, state.selected);
        assert(rows.subrange(0, at) =~= head.take(at));
        assert(rows[at] == head[at]);
        param_builder::lemma_nth_selectable_is(rows, 0, at);
    } else if REGISTRY_LEN <= state.selected <= REGISTRY_LEN + custom {
        let c = state.selected - REGISTRY_LEN;
        let some = Seq::new(c as nat, |i: int| RowSpec::Custom(i));
        let at = n + 1 + c;
        param_builder::lemma_custom_rows(c as nat);
        assert(rows.subrange(0, at) =~= headed + some);
        param_builder::lemma_count_selectable_concat(headed, some);
        if c < custom {
            assert(rows[at] == RowSpec::Custom(c));
        } else {
            assert(rows[at] == RowSpec::AddCustom);
        }
        param_builder::lemma_nth_selectable_is(rows, 0, at);
    } else if state.selected > REGISTRY_LEN + custom {
        param_builder::selectable_rows(custom);
        param_builder::lemma_nth_selectable(rows, 0, state.selected);
        match param_builder::nth_selectable(rows, 0, state.selected) {
            Some(i) => {
                param_builder::lemma_count_selectable_concat(rows.subrange(0, i), rows.skip(i));
                assert(rows.subrange(0, i) + rows.skip(i) =~= rows);
            },
            None => {},
        }
        let at = lemma_param_position(REGISTRY_LEN as int, 0);
        assert(rows.subrange(0, at) =~= head.take(at));
        assert(rows[at] == head[at]);
        param_builder::lemma_nth_selectable_is(rows, 0, at);
    }
}

/// Adjusting the number of the selected flag by `k` steps stores exactly the number that is
/// `k` steps away, or the bound that it passes. A flag without a number starts from zero,
/// or from the bound that is nearest to zero. Nothing else changes, and the message says
/// the new number.
pub proof fn adjusting_moves_by_steps(state: BuilderSpec, k: int)
    requires
        0 <= state.selected < REGISTRY_LEN,
        state.values.values.len() >= REGISTRY_LEN,
        registry_table::flag_table()[state.selected].kind is Integer,
    ensures
        match registry_table::flag_table()[state.selected].kind {
            KindSpec::Integer { min, max, step } => {
                let v = match state.values.values[state.selected] {
                    ValueSpec::Integer(v) => v,
                    _ => if min > 0 {
                        min
                    } else if max < 0 {
                        max
                    } else {
                        0
                    },
                };
                let (after, message) = state.adjusted(k);
                let stored = after.values.values[state.selected];
                &&& min <= v + k * step <= max ==> stored == ValueSpec::Integer(v + k * step)
                &&& v + k * step < min ==> stored == ValueSpec::Integer(min)
                &&& v + k * step > max ==> stored == ValueSpec::Integer(max)
                &&& after == (BuilderSpec {
                    values: ValuesSpec {
                        values: state.values.values.update(state.selected, stored),
                        custom: state.values.custom,
                    },
                    ..state
                })
                &&& message == Some(
                    registry_table::flag_table()[state.selected].label + " = "@
                        + number::decimal_int(
                        if v + k * step < min {
                            min
                        } else if v + k * step > max {
                            max
                        } else {
                            v + k * step
                        },
                    ),
                )
            },
            _ => false,
        },
{
    rows_are_selected_in_order(state);
    registry_laws::registry_is_well_formed(state.selected);
    match registry_table::flag_table()[state.selected].kind {
        KindSpec::Integer { min, max, step } => {
            assert(step * k == k * step) by (nonlinear_arith);
        },
        _ => {},
    }
}

/// Adjusting by `k` steps and then by as many in the other direction gives the number back
/// where no bound is passed; and two adjustments that pass none are one.
pub proof fn adjusting_there_and_back(state: BuilderSpec, v: int, k: int, l: int)
    requires
        0 <= state.selected < REGISTRY_LEN,
        state.values.values.len() >= REGISTRY_LEN,
        state.values.values[state.selected] == ValueSpec::Integer(v),
        match registry_table::flag_table()[state.selected].kind {
            KindSpec::Integer { min, max, step } => min <= v <= max && min <= v + k * step <= max,
            _ => false,
        },
    ensures
        state.adjusted(k).0.adjusted(-k).0 == state,
        state.adjusted(k).0.adjusted(l).0 == state.adjusted(k + l).0,
{
    adjusting_moves_by_steps(state, k);
    adjusting_moves_by_steps(state, k + l);
    let after = state.adjusted(k).0;
    adjusting_moves_by_steps(after, -k);
    adjusting_moves_by_steps(after, l);
    match registry_table::flag_table()[state.selected].kind {
        KindSpec::Integer { min, max, step } => {
            assert(v + k * step + (-k) * step == v) by (nonlinear_arith);
            assert(v + k * step + l * step == v + (k + l) * step) by (nonlinear_arith);
            let values = state.values.values;
            let i = state.selected;
            assert(after.values.values.update(i, ValueSpec::Integer(v)) =~= values);
            let far = after.adjusted(l).0.values.values[i];
            assert(after.values.values.update(i, far) =~= values.update(i, far));
        },
        _ => {},
    }
}

/// Only numbers can be adjusted.
pub proof fn only_numbers_are_adjusted(state: BuilderSpec, k: int)
    requires
        0 <= state.selected,
        state.selected < REGISTRY_LEN ==> !(registry_table::flag_table()[state.selected].kind
            is Integer),
        state.selected <= REGISTRY_LEN + state.values.custom.len(),
    ensures
        state.adjusted(k) == (state, None::<Seq<char>>),
{
    rows_are_selected_in_order(state);
}

/// The value that a pair of a preset stands for is stored as it is: a number as that
/// number, on as on, off as off, a text as that text, and an option as its position.
pub open spec fn holds_preset(kind: KindSpec, given: PresetValueSpec, stored: ValueSpec) -> bool {
    match given {
        PresetValueSpec::Int(n) => stored == ValueSpec::Integer(n),
        PresetValueSpec::On => stored == ValueSpec::On,
        PresetValueSpec::Off => stored == ValueSpec::Off,
        PresetValueSpec::Text(t) => stored == ValueSpec::Text(t),
        PresetValueSpec::Opt(option) => match (kind, stored) {
            (KindSpec::Choice(options), ValueSpec::Choice(i)) => 0 <= i < options.len()
                && options[i] == option,
            (KindSpec::Choice(options), ValueSpec::Unset) => !options.contains(option),
            (KindSpec::Choice(options), _) => false,
            _ => stored == ValueSpec::Text(option),
        },
    }
}

proof fn lemma_one_value(kind: KindSpec, given: PresetValueSpec)
    ensures
        holds_preset(kind, given, param_builder::value_of_preset(kind, given)),
{
    match (kind, given) {
        (KindSpec::Choice(options), PresetValueSpec::Opt(option)) => {
            param_registry::lemma_option_index(options, option);
        },
        _ => {},
    }
}

/// Values that are stored pair by pair: the last pair that names a flag decides on it, and
/// a flag that no pair names keeps its value. No custom line is touched.
pub proof fn last_pair_decides(
    values: ValuesSpec,
    pairs: Seq<(Seq<char>, PresetValueSpec)>,
    i: int,
    k: int,
)
    requires
        0 <= i < REGISTRY_LEN,
        values.values.len() >= REGISTRY_LEN,
        -1 <= k < pairs.len(),
        k >= 0 ==> param_registry::find_flag(pairs[k].0) == Some(i),
        forall|j: int| k < j < pairs.len() ==> param_registry::find_flag(
            (#[trigger] pairs[j]).0,
        ) != Some(i),
    ensures
        ({
            let after = param_builder::with_preset(values, pairs);
            &&& after.custom == values.custom
            &&& after.values.len() == values.values.len()
            &&& k >= 0 ==> holds_preset(
                registry_table::flag_table()[i].kind,
                pairs[k].1,
                after.values[i],
            )
            &&& k < 0 ==> after.values[i] == values.values[i]
        }),
    decreases pairs.len(),
{
    if pairs.len() > 0 {
        let earlier = pairs.drop_last();
        param_registry::lemma_find_flag_from(pairs.last().0, 0);
        if k == pairs.len() - 1 {
            lemma_one_value(registry_table::flag_table()[i].kind, pairs[k].1);
            lemma_shape(values, earlier);
        } else {
            assert(param_registry::find_flag(pairs[pairs.len() - 1].0) != Some(i));
            assert forall|j: int| k < j < earlier.len() implies param_registry::find_flag(
                (#[trigger] earlier[j]).0,
            ) != Some(i) by {
                assert(earlier[j] == pairs[j]);
            }
            last_pair_decides(values, earlier, i, k);
        }
    }
}

proof fn lemma_shape(values: ValuesSpec, pairs: Seq<(Seq<char>, PresetValueSpec)>)
    requires
        values.values.len() >= REGISTRY_LEN,
    ensures
        param_builder::with_preset(values, pairs).custom == values.custom,
        param_builder::with_preset(values, pairs).values.len() == values.values.len(),
    decreases pairs.len(),
{
    if pairs.len() > 0 {
        lemma_shape(values, pairs.drop_last());
        param_registry::lemma_find_flag_from(pairs.last().0, 0);
    }
}

/// The positions of the flags that a preset names.
spec fn named_flags(p: int) -> Seq<int> {
    if p == 0 {
        seq![0int, 10, 6, 14, 16, 22, 23, 2, 3, 40, 42]
    } else if p == 1 {
        seq![17int, 30, 14, 6]
    } else if p == 2 {
        seq![10int, 19, 6, 14]
    } else {
        seq![0int, 10, 14, 6, 43, 44]
    }
}

proof fn lemma_named(p: int, k: int)
    requires
        0 <= p < PRESET_COUNT,
        0 <= k < registry_table::preset_table()[p].values.len(),
    ensures
        registry_table::preset_table()[p].values.len() == named_flags(p).len(),
        param_registry::find_flag(registry_table::preset_table()[p].values[k].0) == Some(
            named_flags(p)[k],
        ),
{
    reveal(registry_table::preset_at);
    reveal(registry_table::context_flag);
    reveal(registry_table::gpu_flag);
    reveal(registry_table::cache_flag);
    reveal(registry_table::cpu_flag);
    reveal(registry_table::load_flag);
    reveal(registry_table::sampling_flag);
    reveal(registry_table::server_flag);
    registry_laws::every_spelling_is_found(named_flags(p)[k], 0);
}

/// After a preset was applied, each flag that it names holds the very value that it gives.
pub proof fn preset_gives_each_value(state: BuilderSpec, p: int, k: int, i: int, a: int)
    requires
        0 <= p < PRESET_COUNT,
        0 <= k < registry_table::preset_table()[p].values.len(),
        state.values.values.len() >= REGISTRY_LEN,
        0 <= i < REGISTRY_LEN,
        0 <= a <= registry_table::flag_table()[i].aliases.len(),
        registry_laws::spelling(registry_table::flag_table()[i], a)
            == registry_table::preset_table()[p].values[k].0,
    ensures
        ({
            let stored = state.with_preset_applied(p).values.values[i];
            let kind = registry_table::flag_table()[i].kind;
            match registry_table::preset_table()[p].values[k].1 {
                PresetValueSpec::Int(n) => stored == ValueSpec::Integer(n),
                PresetValueSpec::On => stored == ValueSpec::On,
                PresetValueSpec::Off => stored == ValueSpec::Off,
                PresetValueSpec::Text(t) => stored == ValueSpec::Text(t),
                PresetValueSpec::Opt(option) => match (kind, stored) {
                    (KindSpec::Choice(options), ValueSpec::Choice(n)) => 0 <= n < options.len()
                        && options[n] == option,
                    _ => false,
                },
            }
        }),
{
    let pairs = registry_table::preset_table()[p].values;
    let unset = ValuesSpec::unset(state.values.values.len());
    registry_laws::every_spelling_is_found(i, a);
    registry_laws::presets_fit_the_registry(p, k);
    lemma_named(p, k);
    assert forall|j: int| k < j < pairs.len() implies param_registry::find_flag(
        (#[trigger] pairs[j]).0,
    ) != Some(i) by {
        lemma_named(p, j);
        lemma_named_once(p, j, k);
    }
    last_pair_decides(unset, pairs, i, k);
    match pairs[k].1 {
        PresetValueSpec::Opt(option) => {
            match registry_table::flag_table()[i].kind {
                KindSpec::Choice(options) => {
                    param_registry::lemma_option_index(options, option);
                },
                _ => {},
            }
        },
        _ => {},
    }
}

proof fn lemma_named_once(p: int, j: int, k: int)
    requires
        0 <= j < named_flags(p).len(),
        0 <= k < named_flags(p).len(),
        j != k,
    ensures
        named_flags(p)[j] != named_flags(p)[k],
{
}

/// A flag that a preset does not name is unset after it was applied, and no custom line is
/// left. Everything but the values stays.
pub proof fn preset_unsets_the_others(state: BuilderSpec, p: int, i: int)
    requires
        0 <= p < PRESET_COUNT,
        state.values.values.len() >= REGISTRY_LEN,
        0 <= i < REGISTRY_LEN,
        forall|k: int, a: int|
            0 <= k < registry_table::preset_table()[p].values.len() && 0 <= a
                <= registry_table::flag_table()[i].aliases.len()
                ==> #[trigger] registry_laws::spelling(registry_table::flag_table()[i], a)
                != #[trigger] registry_table::preset_table()[p].values[k].0,
    ensures
        state.with_preset_applied(p).values.values[i] == ValueSpec::Unset,
        state.with_preset_applied(p).values.custom.len() == 0,
        state.with_preset_applied(p) == (BuilderSpec {
            values: state.with_preset_applied(p).values,
            ..state
        }),
{
    let pairs = registry_table::preset_table()[p].values;
    let unset = ValuesSpec::unset(state.values.values.len());
    assert forall|j: int| 0 <= j < pairs.len() implies param_registry::find_flag(
        (#[trigger] pairs[j]).0,
    ) != Some(i) by {
        if param_registry::find_flag(pairs[j].0) == Some(i) {
            let a = lemma_found_by_spelling(pairs[j].0, i);
            assert(registry_laws::spelling(registry_table::flag_table()[i], a) == pairs[j].0);
        }
    }
    last_pair_decides(unset, pairs, i, -1);
}

/// A flag is found by one of its spellings only.
proof fn lemma_found_by_spelling(name: Seq<char>, i: int) -> (a: int)
    requires
        param_registry::find_flag(name) == Some(i),
    ensures
        0 <= i < REGISTRY_LEN,
        0 <= a <= registry_table::flag_table()[i].aliases.len(),
        registry_laws::spelling(registry_table::flag_table()[i], a) == name,
{
    param_registry::lemma_find_flag_from(name, 0);
    let def = registry_table::flag_table()[i];
    if def.flag == name {
        0
    } else {
        let k = choose|k: int| 0 <= k < def.aliases.len() && def.aliases[k] == name;
        k + 1
    }
}

/// Activating a flag goes to its next value: a toggle is switched, three states are gone
/// through in the order unset, on, off, and the options of a choice in their order with
/// no choice behind the last. Nothing else changes.
pub proof fn activating_goes_to_the_next_value(state: BuilderSpec)
    requires
        0 <= state.selected < REGISTRY_LEN,
        state.values.values.len() >= REGISTRY_LEN,
    ensures
        ({
            let i = state.selected;
            let after = state.activated().0;
            let old = state.values.values[i];
            let new = after.values.values[i];
            match registry_table::flag_table()[i].kind {
                KindSpec::Toggle => {
                    &&& old == ValueSpec::On ==> new == ValueSpec::Unset
                    &&& old != ValueSpec::On ==> new == ValueSpec::On
                },
                KindSpec::TriState => {
                    &&& old == ValueSpec::Unset ==> new == ValueSpec::On
                    &&& old == ValueSpec::On ==> new == ValueSpec::Off
                    &&& old == ValueSpec::Off ==> new == ValueSpec::Unset
                },
                KindSpec::Choice(options) => {
                    &&& old == ValueSpec::Unset ==> new == ValueSpec::Choice(0)
                    &&& match old {
                        ValueSpec::Choice(n) => new == if n < options.len() - 1 {
                            ValueSpec::Choice(n + 1)
                        } else {
                            ValueSpec::Unset
                        },
                        _ => true,
                    }
                },
                _ => after.values == state.values && after.editing is Some,
            }
        }),
        ({
            let i = state.selected;
            let after = state.activated().0;
            let kind = registry_table::flag_table()[i].kind;
            kind is Toggle || kind is TriState || kind is Choice ==> after == (BuilderSpec {
                values: ValuesSpec {
                    values: state.values.values.update(i, after.values.values[i]),
                    custom: state.values.custom,
                },
                ..state
            })
        }),
{
    rows_are_selected_in_order(state);
}

/// Activating a number, a text, a custom line or the row that adds one opens the editor on
/// it, with what it holds.
pub proof fn activating_opens_the_editor(state: BuilderSpec)
    requires
        0 <= state.selected <= REGISTRY_LEN + state.values.custom.len(),
        state.selected <= usize::MAX,
        state.values.values.len() >= REGISTRY_LEN,
        state.selected < REGISTRY_LEN ==> registry_table::flag_table()[state.selected].kind
            is Integer || registry_table::flag_table()[state.selected].kind is Text,
    ensures
        ({
            let i = state.selected;
            let after = state.activated().0;
            &&& after == (BuilderSpec { editing: after.editing, ..state })
            &&& i < REGISTRY_LEN ==> after.editing == Some(
                EditSpec {
                    target: EditTarget::Param(i as usize),
                    buffer: match state.values.values[i] {
                        ValueSpec::Integer(v) => number::decimal_int(v),
                        ValueSpec::Text(t) => t,
                        _ => Seq::empty(),
                    },
                },
            )
            &&& REGISTRY_LEN <= i < REGISTRY_LEN + state.values.custom.len() ==> after.editing
                == Some(
                EditSpec {
                    target: EditTarget::Custom((i - REGISTRY_LEN) as usize),
                    buffer: state.values.custom[i - REGISTRY_LEN],
                },
            )
            &&& i == REGISTRY_LEN + state.values.custom.len() ==> after.editing == Some(
                EditSpec { target: EditTarget::CustomNew, buffer: Seq::empty() },
            )
        }),
{
    rows_are_selected_in_order(state);
}

/// A character that is typed is added at the end of the text in the editor as long as that
/// is under 240 bytes, and the last one is taken back; nothing else changes.
pub proof fn typing_adds_the_character(
    state: BuilderSpec,
    target: EditTarget,
    buffer: Seq<char>,
    c: char,
)
    requires
        state.editing == Some(EditSpec { target, buffer }),
    ensures
        text::byte_len(buffer) < 240 ==> state.keyed(EditKey::Char(c)) == (
            BuilderSpec {
                editing: Some(EditSpec { target, buffer: buffer + seq![c] }),
                ..state
            },
            None::<Seq<char>>,
        ),
        text::byte_len(buffer) >= 240 ==> state.keyed(EditKey::Char(c)) == (
            state,
            None::<Seq<char>>,
        ),
        buffer.len() == 0 ==> state.keyed(EditKey::Backspace) == (state, None::<Seq<char>>),
        buffer.len() > 0 ==> state.keyed(EditKey::Backspace) == (
            BuilderSpec {
                editing: Some(EditSpec { target, buffer: buffer.take(buffer.len() - 1) }),
                ..state
            },
            None::<Seq<char>>,
        ),
        state.keyed(EditKey::Other) == (state, None::<Seq<char>>),
        state.keyed(EditKey::Enter) == state.committed(),
{
    assert(buffer.push(c) =~= buffer + seq![c]);
    if buffer.len() > 0 {
        assert(buffer.drop_last() =~= buffer.take(buffer.len() - 1));
    }
}

proof fn lemma_given(before: Seq<char>, given: Seq<char>, after: Seq<char>)
    requires
        is_gap(before),
        is_core(given),
        is_gap(after),
    ensures
        text::trim(before + given + after) == given,
{
    text_laws::gaps_are_trimmed(before, given, after);
}

/// A number that is typed for a flag is stored, or the bound that it passes, whatever white
/// space stands around it; the editor closes.
pub proof fn typed_number_is_stored(
    state: BuilderSpec,
    i: usize,
    before: Seq<char>,
    v: int,
    after: Seq<char>,
)
    requires
        i < REGISTRY_LEN,
        0 <= state.selected <= REGISTRY_LEN + state.values.custom.len(),
        state.values.values.len() >= REGISTRY_LEN,
        registry_table::flag_table()[i as int].kind is Integer,
        is_gap(before),
        is_gap(after),
        -0x8000_0000_0000_0000 <= v <= 0x7fff_ffff_ffff_ffff,
        state.editing == Some(
            EditSpec {
                target: EditTarget::Param(i),
                buffer: before + number::decimal_int(v) + after,
            },
        ),
    ensures
        match registry_table::flag_table()[i as int].kind {
            KindSpec::Integer { min, max, .. } => state.committed() == (
                BuilderSpec {
                    values: ValuesSpec {
                        values: state.values.values.update(
                            i as int,
                            ValueSpec::Integer(
                                if v < min {
                                    min
                                } else if v > max {
                                    max
                                } else {
                                    v
                                },
                            ),
                        ),
                        custom: state.values.custom,
                    },
                    editing: None,
                    ..state
                },
                Some(Seq::<char>::empty()),
            ),
            _ => false,
        },
{
    let digits = number::decimal_int(v);
    round_trip::lemma_decimal_word(v);
    assert(!text::is_white(digits[0]) && !text::is_white(digits[digits.len() - 1]));
    lemma_given(before, digits, after);
    text_laws::signed_decimals_are_read(v);
    registry_laws::registry_is_well_formed(i as int);
    param_builder::selectable_rows(state.values.custom.len());
}

/// A number that does not fit in 64 bits is refused: nothing is stored, and the editor stays
/// open on it.
pub proof fn typed_number_out_of_range_is_refused(
    state: BuilderSpec,
    i: usize,
    before: Seq<char>,
    v: int,
    after: Seq<char>,
)
    requires
        i < REGISTRY_LEN,
        registry_table::flag_table()[i as int].kind is Integer,
        is_gap(before),
        is_gap(after),
        v < -0x8000_0000_0000_0000 || v > 0x7fff_ffff_ffff_ffff,
        state.editing == Some(
            EditSpec {
                target: EditTarget::Param(i),
                buffer: before + number::decimal_int(v) + after,
            },
        ),
    ensures
        state.committed().0 == state,
        state.committed().1 is Some,
{
    let digits = number::decimal_int(v);
    round_trip::lemma_decimal_word(v);
    assert(!text::is_white(digits[0]) && !text::is_white(digits[digits.len() - 1]));
    lemma_given(before, digits, after);
    text_laws::signed_decimals_are_read(v);
}

/// A text that is no number is refused for a flag that takes one: nothing is stored, and
/// the editor stays open on it.
pub proof fn typed_text_is_no_number(
    state: BuilderSpec,
    i: usize,
    before: Seq<char>,
    given: Seq<char>,
    after: Seq<char>,
    k: int,
)
    requires
        i < REGISTRY_LEN,
        registry_table::flag_table()[i as int].kind is Integer,
        is_gap(before),
        is_gap(after),
        is_core(given),
        0 <= k < given.len(),
        !('0' <= given[k] <= '9'),
        k > 0 || (given[0] != '+' && given[0] != '-'),
        state.editing == Some(
            EditSpec { target: EditTarget::Param(i), buffer: before + given + after },
        ),
    ensures
        state.committed().0 == state,
        state.committed().1 is Some,
{
    lemma_given(before, given, after);
    text_laws::other_texts_are_no_numbers(given, k, 0);
}

/// A text that is typed for a flag that takes one is stored without the white space around
/// it; where nothing is left the flag is unset. The editor closes.
pub proof fn typed_text_is_stored(
    state: BuilderSpec,
    i: usize,
    before: Seq<char>,
    given: Seq<char>,
    after: Seq<char>,
)
    requires
        i < REGISTRY_LEN,
        0 <= state.selected <= REGISTRY_LEN + state.values.custom.len(),
        state.values.values.len() >= REGISTRY_LEN,
        registry_table::flag_table()[i as int].kind is Text || given.len() == 0,
        is_gap(before),
        is_gap(after),
        is_core(given),
        state.editing == Some(
            EditSpec { target: EditTarget::Param(i), buffer: before + given + after },
        ),
    ensures
        state.committed().0 == (BuilderSpec {
            values: ValuesSpec {
                values: state.values.values.update(
                    i as int,
                    if given.len() == 0 {
                        ValueSpec::Unset
                    } else {
                        ValueSpec::Text(given)
                    },
                ),
                custom: state.values.custom,
            },
            editing: None,
            ..state
        }),
{
    lemma_given(before, given, after);
    param_builder::selectable_rows(state.values.custom.len());
}

/// A custom line that is typed is stored without the white space around it: in place of the
/// line that was edited, or behind the others. Where nothing is left, the line that was
/// edited is removed, and no new one is added. The selection stays where it can.
pub proof fn typed_line_is_stored(
    state: BuilderSpec,
    n: usize,
    before: Seq<char>,
    given: Seq<char>,
    after: Seq<char>,
)
    requires
        n <= state.values.custom.len(),
        is_gap(before),
        is_gap(after),
        is_core(given),
        state.editing == Some(
            EditSpec {
                target: if n < state.values.custom.len() {
                    EditTarget::Custom(n)
                } else {
                    EditTarget::CustomNew
                },
                buffer: before + given + after,
            },
        ),
    ensures
        ({
            let custom = state.values.custom;
            let line = if given.len() == 0 {
                Seq::empty()
            } else {
                seq![given]
            };
            let lines = if n < custom.len() {
                custom.take(n as int) + line + custom.skip(n + 1)
            } else {
                custom + line
            };
            state.committed() == (
                BuilderSpec {
                    values: ValuesSpec { values: state.values.values, custom: lines },
                    editing: None,
                    selected: if state.selected > REGISTRY_LEN + lines.len() {
                        (REGISTRY_LEN + lines.len()) as int
                    } else {
                        state.selected
                    },
                    ..state
                },
                Some(Seq::<char>::empty()),
            )
        }),
{
    lemma_given(before, given, after);
    let custom = state.values.custom;
    let done = state.committed().0.values.custom;
    param_builder::selectable_rows(done.len());
    if n < custom.len() {
        if given.len() == 0 {
            assert(done =~= custom.take(n as int) + Seq::empty() + custom.skip(n + 1));
        } else {
            assert(done =~= custom.take(n as int) + seq![given] + custom.skip(n + 1));
        }
    } else if given.len() == 0 {
        assert(done =~= custom + Seq::empty());
    } else {
        assert(done =~= custom + seq![given]);
    }
}

/// Deleting takes the selected custom line out and leaves the others in their order; the
/// row behind it is then selected. On any other row nothing is deleted.
pub proof fn deleting_takes_one_line_out(state: BuilderSpec)
    requires
        0 <= state.selected <= REGISTRY_LEN + state.values.custom.len(),
    ensures
        ({
            let custom = state.values.custom;
            let c = state.selected - REGISTRY_LEN;
            if 0 <= c < custom.len() {
                state.custom_deleted() == (
                    BuilderSpec {
                        values: ValuesSpec {
                            values: state.values.values,
                            custom: custom.take(c) + custom.skip(c + 1),
                        },
                        ..state
                    },
                    Some("custom flag removed"@),
                )
            } else {
                state.custom_deleted() == (state, None::<Seq<char>>)
            }
        }),
{
    rows_are_selected_in_order(state);
    let custom = state.values.custom;
    let c = state.selected - REGISTRY_LEN;
    if 0 <= c < custom.len() {
        assert(custom.remove(c) =~= custom.take(c) + custom.skip(c + 1));
        param_builder::selectable_rows((custom.len() - 1) as nat);
    }
}

/// Moving the selection goes through the rows in turn and around their ends: one step down
/// from the last row is the first, one step up from the first is the last.
pub proof fn moving_goes_around(state: BuilderSpec, delta: int)
    requires
        0 <= state.selected <= REGISTRY_LEN + state.values.custom.len(),
        state.selected <= isize::MAX,
        -1 <= delta <= 1,
    ensures
        ({
            let last = REGISTRY_LEN + state.values.custom.len();
            state.moved_by(delta) == (BuilderSpec {
                selected: if delta == 1 && state.selected == last {
                    0
                } else if delta == -1 && state.selected == 0 {
                    last as int
                } else {
                    state.selected + delta
                },
                ..state
            })
        }),
{
    let count = REGISTRY_LEN + state.values.custom.len() + 1;
    param_builder::selectable_rows(state.values.custom.len());
    let to = state.selected + delta;
    if to == count {
        assert(count % count == 0) by (nonlinear_arith)
            requires
                count > 0,
        ;
    } else if to < 0 {
        assert((-1) % count == count - 1) by (nonlinear_arith)
            requires
                count > 0,
        ;
    } else {
        vstd::arithmetic::div_mod::lemma_small_mod(to as nat, count as nat);
    }
}

/// What a command brings in replaces the values, the invocation and the model path; an
/// invocation of white space alone is `llama-server`.
pub proof fn importing_replaces_the_command(
    state: BuilderSpec,
    before: Seq<char>,
    binary: Seq<char>,
    after: Seq<char>,
    lines: Seq<Seq<Seq<char>>>,
    model: Option<Seq<char>>,
)
    requires
        is_gap(before),
        is_core(binary),
        is_gap(after),
    ensures
        ({
            let imported = state.imported(before + binary + after, lines, model);
            &&& imported.model_path == model
            &&& binary.len() > 0 ==> imported.binary == binary
            &&& binary.len() == 0 ==> imported.binary == "llama-server"@
            &&& imported == (BuilderSpec {
                values: imported.values,
                binary: imported.binary,
                model_path: imported.model_path,
                selected: imported.selected,
                ..state
            })
            &&& state.selected <= REGISTRY_LEN ==> imported.selected == state.selected
        }),
{
    lemma_given(before, binary, after);
    let imported = state.imported(before + binary + after, lines, model);
    param_builder::selectable_rows(imported.values.custom.len());
}

/// The lines of the command are the invocation, the model path behind `-m` where there is
/// one, the lines of the flags, and the port, which is filled in later.
pub proof fn body_has_its_parts_in_order(state: BuilderSpec, path: Seq<char>)
    ensures
        state.model_path is None ==> state.body() == seq![state.binary] + param_values::flag_lines(
            state.values,
        ) + seq!["--port ${PORT}"@],
        state.model_path == Some(path) ==> state.body() == seq![state.binary, "-m "@ + path]
            + param_values::flag_lines(state.values) + seq!["--port ${PORT}"@],
{
    let none = Seq::<Seq<char>>::empty();
    assert(seq![state.binary] + none =~= seq![state.binary]);
    assert(seq![state.binary] + seq!["-m "@ + path] =~= seq![state.binary, "-m "@ + path]);
}

/// The row of a flag stands below that of the flag before it where both are of one
/// category, and below the title of its own category where they are not.
pub proof fn flags_stand_below_their_titles(custom: nat, i: int) -> (at: int)
    requires
        0 <= i < REGISTRY_LEN,
    ensures
        0 < at < param_builder::list_rows(custom).len(),
        param_builder::list_rows(custom)[at] == RowSpec::Param(i),
        ({
            let above = param_builder::list_rows(custom)[at - 1];
            let table = registry_table::flag_table();
            if i > 0 && table[i - 1].category == table[i].category {
                above == RowSpec::Param(i - 1)
            } else {
                above == RowSpec::Header(table[i].category.title_text())
            }
        }),
{
    let at = lemma_below_title(REGISTRY_LEN as int, i);
    let head = param_builder::param_rows(REGISTRY_LEN as int);
    let rows = param_builder::list_rows(custom);
    assert(rows[at] == head[at]);
    assert(rows[at - 1] == head[at - 1]);
    at
}

proof fn lemma_below_title(n: int, i: int) -> (at: int)
    requires
        0 <= i < n <= REGISTRY_LEN,
    ensures
        0 < at < param_builder::param_rows(n).len(),
        param_builder::param_rows(n)[at] == RowSpec::Param(i),
        ({
            let above = param_builder::param_rows(n)[at - 1];
            let table = registry_table::flag_table();
            if i > 0 && table[i - 1].category == table[i].category {
                above == RowSpec::Param(i - 1)
            } else {
                above == RowSpec::Header(table[i].category.title_text())
            }
        }),
    decreases n,
{
    let rows = param_builder::param_rows(n);
    let earlier = param_builder::param_rows(n - 1);
    param_builder::lemma_param_rows(n - 1);
    if i == n - 1 {
        let at = rows.len() - 1;
        if n > 1 && registry_table::flag_table()[n - 2].category
            == registry_table::flag_table()[n - 1].category {
            assert(earlier.len() > 0);
            assert(earlier.last() == RowSpec::Param(n - 2));
        }
        at
    } else {
        let at = lemma_below_title(n - 1, i);
        assert(rows[at] == earlier[at]);
        assert(rows[at - 1] == earlier[at - 1]);
        at
    }
}

/// The custom lines stand in their order below a title of their own, behind all flags, and
/// the row that adds one stands last.
pub proof fn custom_lines_stand_last(custom: nat, c: int)
    requires
        0 <= c < custom,
    ensures
        ({
            let rows = param_builder::list_rows(custom);
            let n = rows.len() as int;
            &&& rows[n - 1] == RowSpec::AddCustom
            &&& rows[n - 1 - custom + c] == RowSpec::Custom(c)
            &&& rows[n - 2 - custom] == RowSpec::Header("Custom flags"@)
            &&& rows[n - 3 - custom] == RowSpec::Param(REGISTRY_LEN - 1)
        }),
{
    let head = param_builder::param_rows(REGISTRY_LEN as int);
    param_builder::lemma_param_rows(REGISTRY_LEN as int);
    assert(head.last() == RowSpec::Param(REGISTRY_LEN - 1));
}

/// The first flag of a category is of that category, and no flag before it is; a category
/// that is not found has no flag.
pub proof fn categories_start_at_their_first_flag(category: ParamCategory, j: int)
    requires
        0 <= j < REGISTRY_LEN,
    ensures
        match param_registry::category_start_from(category, 0) {
            Some(i) => {
                &&& 0 <= i < REGISTRY_LEN
                &&& registry_table::flag_table()[i].category == category
                &&& j < i ==> registry_table::flag_table()[j].category != category
            },
            None => registry_table::flag_table()[j].category != category,
        },
{
    lemma_category(category, 0, j);
}

proof fn lemma_category(category: ParamCategory, from: int, j: int)
    requires
        0 <= from <= REGISTRY_LEN,
        0 <= j < REGISTRY_LEN,
    ensures
        match param_registry::category_start_from(category, from) {
            Some(i) => {
                &&& from <= i < REGISTRY_LEN
                &&& registry_table::flag_table()[i].category == category
                &&& from <= j < i ==> registry_table::flag_table()[j].category != category
            },
            None => from <= j ==> registry_table::flag_table()[j].category != category,
        },
    decreases REGISTRY_LEN - from,
{
    if from < REGISTRY_LEN && registry_table::flag_table()[from].category != category {
        lemma_category(category, from + 1, j);
    }
}

/// A selection in range stays; one behind the last row goes to the last row. Nothing else
/// changes.
pub proof fn clamping_goes_to_the_last_row(state: BuilderSpec)
    ensures
        ({
            let last = REGISTRY_LEN + state.values.custom.len();
            &&& state.selected <= last ==> state.clamped() == state
            &&& state.selected > last ==> state.clamped() == (BuilderSpec {
                selected: last as int,
                ..state
            })
        }),
{
    param_builder::selectable_rows(state.values.custom.len());
}

/// What is said of an edit: a toggle that was switched, the new value of a flag that was
/// cycled, a flag that was cleared, and a number that was refused with its bounds.
pub proof fn edits_are_reported(state: BuilderSpec, i: usize, gap: Seq<char>)
    requires
        i < REGISTRY_LEN,
        is_gap(gap),
    ensures
        ({
            let def = registry_table::flag_table()[i as int];
            let value = state.activated().0.values.values[i as int];
            &&& state.selected == i && def.kind is Toggle ==> state.activated().1 == Some(
                def.label + " toggled"@,
            )
            &&& state.selected == i && (def.kind is TriState || def.kind is Choice)
                && state.values.values.len() >= REGISTRY_LEN ==> state.activated().1 == Some(
                def.label + " = "@ + param_registry::display_text(value, def.kind),
            )
            &&& state.editing == Some(EditSpec { target: EditTarget::Param(i), buffer: gap })
                ==> state.committed().1 == Some(def.label + " cleared"@)
        }),
        state.editing is None ==> state.committed() == (state, None::<Seq<char>>),
        state.editing is Some ==> state.keyed(EditKey::Esc).1 == Some("edit cancelled"@),
{
    let none = Seq::<char>::empty();
    text_laws::gaps_are_trimmed(gap, none, none);
    assert(gap + none + none =~= gap);
    if state.selected == i {
        rows_are_selected_in_order(state);
    }
}

/// Two moves of the selection are one move by both.
pub proof fn moves_add_up(state: BuilderSpec, a: int, b: int)
    requires
        0 <= state.selected <= REGISTRY_LEN + state.values.custom.len(),
        REGISTRY_LEN + state.values.custom.len() <= isize::MAX,
    ensures
        state.moved_by(a).moved_by(b) == state.moved_by(a + b),
        state.moved_by(0) == state,
{
    let count = REGISTRY_LEN + state.values.custom.len() + 1;
    param_builder::selectable_rows(state.values.custom.len());
    vstd::arithmetic::div_mod::lemma_mod_bound(state.selected + a, count as int);
    vstd::arithmetic::div_mod::lemma_add_mod_noop(state.selected + a, b, count as int);
    vstd::arithmetic::div_mod::lemma_add_mod_noop(
        (state.selected + a) % (count as int),
        b,
        count as int,
    );
    vstd::arithmetic::div_mod::lemma_mod_twice(state.selected + a, count as int);
    vstd::arithmetic::div_mod::lemma_small_mod(state.selected as nat, count as nat);
}

} // verus!
