//! What holds of the Param Builder over several steps.

use crate::param_builder;
use crate::param_builder::{BuilderSpec, EditKey, MAX_EDIT_LEN};
use crate::param_registry;
use crate::param_registry::{KindSpec, ValueSpec, PRESET_COUNT, REGISTRY_LEN};
use crate::param_values::ValuesSpec;
use crate::{number, registry_laws, registry_table, round_trip, text};
use vstd::prelude::*;

verus! {

/// The value after activating a flag `n` times.
pub open spec fn cycled(kind: KindSpec, value: ValueSpec, n: nat) -> ValueSpec
    decreases n,
{
    if n == 0 {
        value
    } else {
        match param_builder::next_value(kind, cycled(kind, value, (n - 1) as nat)) {
            Some(next) => next,
            None => value,
        }
    }
}

/// A toggle goes on and off again.
pub proof fn toggle_cycles()
    ensures
        cycled(KindSpec::Toggle, ValueSpec::Unset, 1) == ValueSpec::On,
        cycled(KindSpec::Toggle, ValueSpec::Unset, 2) == ValueSpec::Unset,
{
    reveal_with_fuel(cycled, 3);
}

/// A flag with three states goes from automatic to on, to off, and back to automatic.
pub proof fn tri_state_cycles()
    ensures
        cycled(KindSpec::TriState, ValueSpec::Unset, 1) == ValueSpec::On,
        cycled(KindSpec::TriState, ValueSpec::Unset, 2) == ValueSpec::Off,
        cycled(KindSpec::TriState, ValueSpec::Unset, 3) == ValueSpec::Unset,
{
    reveal_with_fuel(cycled, 4);
}

/// A choice goes through its options in order, and back to no choice after the last.
pub proof fn choice_cycles(options: Seq<Seq<char>>, n: nat)
    requires
        options.len() > 0,
        n <= options.len() + 1,
    ensures
        cycled(KindSpec::Choice(options), ValueSpec::Unset, n) == if n == 0 || n == options.len()
            + 1 {
            ValueSpec::Unset
        } else {
            ValueSpec::Choice(n - 1)
        },
    decreases n,
{
    if n > 0 {
        choice_cycles(options, (n - 1) as nat);
    }
}

/// Adjusting a number, and typing one in, gives a number within the bounds of its flag.
pub proof fn numbers_stay_in_bounds(i: int, v: int)
    requires
        0 <= i < REGISTRY_LEN,
        registry_table::flag_table()[i].kind is Integer,
    ensures
        match registry_table::flag_table()[i].kind {
            KindSpec::Integer { min, max, .. } => min <= param_builder::bounded(v, min, max)
                <= max && (min <= v <= max ==> param_builder::bounded(v, min, max) == v),
            _ => false,
        },
{
    registry_laws::registry_is_well_formed(i);
}

/// Adjusting the selected number stores a number within the bounds of its flag, and
/// changes no other value.
pub proof fn adjusting_stays_in_bounds(state: BuilderSpec, steps: int)
    requires
        state.adjustment(steps) is Some,
        0 <= state.selected,
        state.values.values.len() >= REGISTRY_LEN,
    ensures
        ({
            let (i, current, delta) = state.adjustment(steps)->0;
            let after = state.adjusted(steps).0;
            &&& round_trip::value_fits(registry_table::flag_table()[i], after.values.values[i])
            &&& forall|k: int|
                0 <= k < state.values.values.len() && k != i ==> #[trigger] after.values.values[k]
                    == state.values.values[k]
            &&& after.values.custom == state.values.custom
        }),
{
    let (i, current, delta) = state.adjustment(steps)->0;
    param_builder::selected_row_is_selectable(state.values.custom.len(), state.selected);
    param_builder::lemma_row_in_range(
        state.values.custom.len(),
        param_builder::selected_position(state.rows(), state.selected),
    );
    registry_laws::registry_is_well_formed(i);
}

/// The selection after moving by `delta` rows of `count`.
pub open spec fn moved(selected: int, delta: int, count: int) -> int {
    (selected + delta) % count
}

/// A move lands on a row that can be selected, and moving back by the same number of rows
/// selects the row that was selected before.
pub proof fn moving_there_and_back(selected: int, delta: int, custom: nat)
    requires
        0 <= selected < param_builder::count_selectable(param_builder::list_rows(custom)),
    ensures
        ({
            let count = param_builder::count_selectable(param_builder::list_rows(custom)) as int;
            &&& 0 <= moved(selected, delta, count) < count
            &&& moved(moved(selected, delta, count), -delta, count) == selected
        }),
{
    let count = param_builder::count_selectable(param_builder::list_rows(custom)) as int;
    vstd::arithmetic::div_mod::lemma_mod_bound(selected + delta, count);
    vstd::arithmetic::div_mod::lemma_add_mod_noop(selected + delta, -delta, count);
    vstd::arithmetic::div_mod::lemma_add_mod_noop((selected + delta) % count, -delta, count);
    vstd::arithmetic::div_mod::lemma_mod_twice(selected + delta, count);
    vstd::arithmetic::div_mod::lemma_small_mod(selected as nat, count as nat);
}

/// After clamping, the selection is in range.
pub proof fn clamped_selection_is_in_range(state: BuilderSpec)
    requires
        0 <= state.selected,
    ensures
        0 <= state.clamped().selected < param_builder::count_selectable(state.clamped().rows()),
{
    param_builder::selectable_rows(state.values.custom.len());
}

/// What a preset gives does not depend on the values before it.
pub proof fn presets_start_afresh(state: BuilderSpec, other: BuilderSpec, index: int)
    requires
        state.values.values.len() == other.values.values.len(),
    ensures
        state.with_preset_applied(index).values == other.with_preset_applied(index).values,
{
}

/// The values of a preset are such as their flags can have; it leaves no custom line.
pub proof fn preset_values_fit(state: BuilderSpec, index: int, i: int)
    requires
        0 <= index < PRESET_COUNT,
        0 <= i < REGISTRY_LEN,
        state.values.values.len() >= REGISTRY_LEN,
    ensures
        round_trip::value_fits(
            registry_table::flag_table()[i],
            state.with_preset_applied(index).values.values[i],
        ),
        state.with_preset_applied(index).values.custom.len() == 0,
{
    let unset = ValuesSpec::unset(state.values.values.len());
    let pairs = registry_table::preset_table()[index].values;
    assert(pairs.take(pairs.len() as int) =~= pairs);
    lemma_preset_values_fit(unset, index, pairs.len() as int, i);
}

proof fn lemma_preset_values_fit(values: ValuesSpec, index: int, n: int, i: int)
    requires
        0 <= index < PRESET_COUNT,
        0 <= n <= registry_table::preset_table()[index].values.len(),
        0 <= i < REGISTRY_LEN,
        values.values.len() >= REGISTRY_LEN,
        values == ValuesSpec::unset(values.values.len()),
    ensures
        ({
            let after = param_builder::with_preset(
                values,
                registry_table::preset_table()[index].values.take(n),
            );
            &&& after.values.len() == values.values.len()
            &&& after.custom.len() == 0
            &&& round_trip::value_fits(registry_table::flag_table()[i], after.values[i])
        }),
    decreases n,
{
    let pairs = registry_table::preset_table()[index].values;
    if n > 0 {
        lemma_preset_values_fit(values, index, n - 1, i);
        assert(pairs.take(n).drop_last() =~= pairs.take(n - 1));
        assert(pairs.take(n).last() == pairs[n - 1]);
        registry_laws::presets_fit_the_registry(index, n - 1);
        let k = param_registry::find_flag(pairs[n - 1].0)->0;
        match registry_table::flag_table()[k].kind {
            KindSpec::Choice(options) => {
                match pairs[n - 1].1 {
                    param_registry::PresetValueSpec::Opt(option) => {
                        param_registry::lemma_option_index(options, option);
                    },
                    _ => {},
                }
            },
            _ => {},
        }
    }
}

/// No key makes the text in the editor longer than the limit and one character.
pub proof fn typing_is_bounded(state: BuilderSpec, key: EditKey)
    requires
        state.editing is Some,
        text::byte_len(state.editing->0.buffer) < MAX_EDIT_LEN + 4,
    ensures
        state.keyed(key).0.editing is Some ==> text::byte_len(
            state.keyed(key).0.editing->0.buffer,
        ) < MAX_EDIT_LEN + 4,
{
    let buffer = state.editing->0.buffer;
    match key {
        EditKey::Char(c) => {
            assert(buffer.push(c).drop_last() =~= buffer);
        },
        _ => {},
    }
}

/// Backspace takes back the character that was typed.
pub proof fn backspace_takes_back(state: BuilderSpec, c: char)
    requires
        state.editing is Some,
        text::byte_len(state.editing->0.buffer) < MAX_EDIT_LEN,
    ensures
        state.keyed(EditKey::Char(c)).0.keyed(EditKey::Backspace).0 == state,
{
    let buffer = state.editing->0.buffer;
    assert(buffer.push(c).drop_last() =~= buffer);
}

/// Cancelling an edit changes no value.
pub proof fn escape_changes_no_value(state: BuilderSpec)
    requires
        state.editing is Some,
    ensures
        state.keyed(EditKey::Esc).0 == (BuilderSpec { editing: None, ..state }),
{
}

/// Committing the text that the editor starts with keeps a number that is within the
/// bounds of its flag.
pub proof fn committing_unchanged_keeps_number(state: BuilderSpec, i: usize, v: int)
    requires
        i < REGISTRY_LEN,
        state.values.values.len() >= REGISTRY_LEN,
        registry_table::flag_table()[i as int].kind is Integer,
        state.values.values[i as int] == ValueSpec::Integer(v),
        round_trip::value_fits(registry_table::flag_table()[i as int], ValueSpec::Integer(v)),
    ensures
        state.edit_started(param_builder::EditTarget::Param(i)).committed().0.values
            == state.values,
{
    registry_laws::registry_is_well_formed(i as int);
    let buffer = number::decimal_int(v);
    round_trip::lemma_decimal_word(v);
    assert(!text::is_white(buffer[0]) && !text::is_white(buffer[buffer.len() - 1]));
    assert(text::trim(buffer) == buffer);
    number::lemma_parse_signed_of_decimal_int(v);
    assert(state.values.values.update(i as int, ValueSpec::Integer(v)) =~= state.values.values);
}

} // verus!
