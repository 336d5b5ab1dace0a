//! The views of the types show every field, each in its own place.

use crate::cmd_block;
use crate::param_builder;
use crate::param_builder::{EditSpec, EditState, ParamBuilderState, ParamRow, RowSpec};
use crate::param_registry::{KindSpec, ParamDef, ParamKind, ParamValue, Preset, PresetValue};
use crate::param_registry::{PresetValueSpec, ValueSpec};
use crate::param_values::ParamValues;
use crate::swap_yaml;
use crate::swap_yaml::{SwapYamlEntry, SwapYamlError};
use crate::telemetry::{GpuTelemetry, ProcessSample};
use vstd::prelude::*;

verus! {

/// The view of a device or of a process shows its fields.
pub proof fn telemetry_is_shown(gpu: GpuTelemetry, process: ProcessSample)
    ensures
        gpu@.name == gpu.name@,
        gpu@.total_vram_mib == gpu.total_vram_mib,
        gpu@.used_vram_mib == gpu.used_vram_mib,
        gpu@.free_vram_mib == gpu.free_vram_mib,
        gpu@.gpu_util_percent == gpu.gpu_util_percent,
        gpu@.mem_util_percent == gpu.mem_util_percent,
        gpu@.temperature_c == gpu.temperature_c,
        gpu@.power_watts is Some <==> gpu.power_watts is Some,
        gpu.power_watts is Some ==> gpu@.power_watts->0 == gpu.power_watts->0@,
        process@.pid == process.pid,
        process@.parent_pid == process.parent_pid,
        process@.process_group == process.process_group,
        process@.cpu_percent == process.cpu_percent@,
        process@.rss_kib == process.rss_kib,
        process@.command == process.command@,
{
}

/// The view of a value shows what it is; so does that of a value in a preset.
pub proof fn values_are_shown(
    value: ParamValue,
    n: i64,
    i: usize,
    t: String,
    given: PresetValue,
    s: &'static str,
)
    ensures
        value@ is Unset <==> value == ParamValue::Unset,
        value@ is On <==> value == ParamValue::On,
        value@ is Off <==> value == ParamValue::Off,
        ParamValue::Integer(n)@ == ValueSpec::Integer(n as int),
        ParamValue::Choice(i)@ == ValueSpec::Choice(i as int),
        ParamValue::Text(t)@ == ValueSpec::Text(t@),
        given@ is On <==> given == PresetValue::On,
        given@ is Off <==> given == PresetValue::Off,
        PresetValue::Int(n)@ == PresetValueSpec::Int(n as int),
        PresetValue::Opt(s)@ == PresetValueSpec::Opt(s@),
        PresetValue::Text(s)@ == PresetValueSpec::Text(s@),
{
}

/// The view of a kind, of a flag and of a preset shows their fields.
pub proof fn registry_is_shown(
    kind: ParamKind,
    min: i64,
    max: i64,
    step: i64,
    options: &'static [&'static str],
    def: ParamDef,
    preset: Preset,
    k: int,
)
    ensures
        kind@ is Toggle <==> kind == ParamKind::Toggle,
        kind@ is TriState <==> kind == ParamKind::TriState,
        kind@ is Text <==> kind == ParamKind::Text,
        (ParamKind::Integer { min, max, step })@ == (KindSpec::Integer {
            min: min as int,
            max: max as int,
            step: step as int,
        }),
        ParamKind::Choice(options)@ is Choice,
        ParamKind::Choice(options)@->0.len() == options@.len(),
        0 <= k < options@.len() ==> ParamKind::Choice(options)@->0[k] == options@[k]@,
        def@.flag == def.flag@,
        def@.aliases.len() == def.aliases@.len(),
        0 <= k < def.aliases@.len() ==> def@.aliases[k] == def.aliases@[k]@,
        def@.label == def.label@,
        def@.category == def.category,
        def@.kind == def.kind@,
        def@.description == def.description@,
        preset@.name == preset.name@,
        preset@.description == preset.description@,
        preset@.values.len() == preset.values@.len(),
        0 <= k < preset.values@.len() ==> preset@.values[k].0 == preset.values@[k].0@
            && preset@.values[k].1 == preset.values@[k].1@,
{
}

/// The view of the values, and of the state that edits them, shows their fields.
pub proof fn builder_is_shown(
    values: ParamValues,
    state: ParamBuilderState,
    edit: EditState,
    row: ParamRow,
    title: &'static str,
    i: usize,
    k: int,
)
    ensures
        values@.values.len() == values.values@.len(),
        0 <= k < values.values@.len() ==> values@.values[k] == values.values@[k]@,
        values@.custom.len() == values.custom@.len(),
        0 <= k < values.custom@.len() ==> values@.custom[k] == values.custom@[k]@,
        state@.values == state.values@,
        state@.binary == state.binary@,
        state.model_path is Some ==> state@.model_path == Some(state.model_path->0@),
        state.model_path is None ==> state@.model_path is None,
        state@.focus == state.focus,
        state@.selected == state.selected,
        state@.scroll == state.scroll,
        state@.preview_scroll == state.preview_scroll,
        state.editing == Some(edit) ==> state@.editing == Some(
            EditSpec { target: edit.target, buffer: edit.buffer@ },
        ),
        state.editing is None ==> state@.editing is None,
        state@.overlay == state.overlay,
        state@.overlay_selected == state.overlay_selected,
        row@ is AddCustom <==> row == ParamRow::AddCustom,
        ParamRow::Header(title)@ == RowSpec::Header(title@),
        ParamRow::Param(i)@ == RowSpec::Param(i as int),
        ParamRow::Custom(i)@ == RowSpec::Custom(i as int),
{
}

/// The view of an entry and of the parts of a command shows them.
pub proof fn entries_are_shown(
    entry: SwapYamlEntry,
    binary: String,
    lines: Vec<Vec<String>>,
    model: Option<String>,
    i: int,
    k: int,
)
    ensures
        entry@.id == entry.id@,
        entry@.disabled == entry.disabled,
        entry.model_path is Some ==> entry@.model_path == Some(entry.model_path->0@),
        entry.model_path is None ==> entry@.model_path is None,
        match cmd_block::parts_view(Some((binary, lines, model))) {
            Some((shown, grid, path)) => {
                &&& shown == binary@
                &&& grid.len() == lines@.len()
                &&& 0 <= i < lines@.len() ==> grid[i].len() == lines@[i]@.len()
                &&& 0 <= i < lines@.len() && 0 <= k < lines@[i]@.len() ==> grid[i][k]
                    == lines@[i]@[k]@
                &&& model is Some ==> path == Some(model->0@)
                &&& model is None ==> path is None
            },
            None => false,
        },
        cmd_block::parts_view(None) is None,
{
}

/// Optional texts are shown as they are.
pub proof fn optional_texts_are_shown(s: Option<String>, t: Option<&str>)
    ensures
        s is Some ==> swap_yaml::text_of(s) == Some(s->0@),
        s is None ==> swap_yaml::text_of(s) is None,
        t is Some ==> param_builder::str_view(t) == Some(t->0@),
        t is None ==> param_builder::str_view(t) is None,
{
}

/// The errors of an edit say what is missing; an id stands in them in quotes.
pub proof fn errors_say_what_is_missing(id: String)
    ensures
        SwapYamlError::NoModelsSection.message_text() == "no models section found"@,
        SwapYamlError::ModelNotFound(id).message_text() == "model "@ + swap_yaml::debug_text(id@)
            + " not found in llama-swap.yaml"@,
        SwapYamlError::NoCmdBlock(id).message_text() == "entry "@ + swap_yaml::debug_text(id@)
            + " has no cmd block"@,
{
}

} // verus!
