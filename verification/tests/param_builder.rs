use l3ms::param_builder::{
    not_integer_message, parse_cmd_block, replace_entry_cmd, EditKey, EditTarget,
    ParamBuilderState, ParamFocus, ParamOverlay, ParamRow, ParamValues, MAX_EDIT_LEN,
};
use l3ms::param_registry::{find_by_flag, ParamCategory, ParamValue, REGISTRY_LEN};
use l3ms::swap_yaml::{entry_span, parse_entries, SwapYamlError};

const SAMPLE: &str = r#"apiKeys: []

models:
  "alpha":
    name: "Alpha"
    description: "test entry"
    env:
      - "GGML_CUDA_GRAPH_OPT=1"
    cmd: |
      taskset -c ${cpu_range} ${llama_server}
      -m /models/alpha/model.gguf
      --alias alpha
      --fit on --fit-target 512
      -c 65536 --parallel 1
      -fa on --jinja
      --lazy-mode on
      --host 0.0.0.0 --port ${PORT}

  "beta":
    cmd: |
      llama-server -m /models/beta/beta.gguf --port ${PORT}
"#;

fn set(values: &mut ParamValues, flag: &str, value: ParamValue) {
    values.values[find_by_flag(flag).unwrap()] = value;
}

fn select(state: &mut ParamBuilderState, flag: &str) -> usize {
    let index = find_by_flag(flag).unwrap();
    while state.selected_row() != ParamRow::Param(index) {
        state.move_selection(1);
    }
    index
}

#[test]
fn rows_cover_registry_and_custom_section() {
    let state = ParamBuilderState::default();
    let rows = state.rows();
    assert_eq!(
        rows.iter()
            .filter(|row| matches!(row, ParamRow::Header(_)))
            .count(),
        ParamCategory::all().len() + 1
    );
    assert!(rows.contains(&ParamRow::AddCustom));
    assert_eq!(
        rows.iter()
            .filter(|row| matches!(row, ParamRow::Param(_)))
            .count(),
        REGISTRY_LEN
    );
}

#[test]
fn navigation_skips_headers_and_wraps() {
    let mut state = ParamBuilderState {
        selected: 0,
        ..Default::default()
    };
    state.move_selection(-1);
    let last = state.selected;
    assert!(last > 0, "backward wrap should land on the last row");
    // The AddCustom row is selectable and last.
    assert_eq!(state.selected_row(), ParamRow::AddCustom);
    state.move_selection(1);
    assert_eq!(state.selected, 0);
    state.move_selection(2);
    assert_eq!(state.selected, 2);
}

#[test]
fn generate_flags_respects_kinds_and_order() {
    let mut values = ParamValues::new();
    set(&mut values, "--ctx-size", ParamValue::Integer(65_536));
    set(&mut values, "--flash-attn", ParamValue::On);
    set(&mut values, "--fit", ParamValue::Off);
    set(&mut values, "--cache-type-k", ParamValue::Choice(3));
    set(&mut values, "--jinja", ParamValue::On);
    values.custom.push("--lazy-mode on".into());
    values.custom.push("   ".into());
    let flags = values.generate_flags();
    assert_eq!(
        flags,
        vec![
            "--ctx-size 65536",
            "--flash-attn on",
            "--fit off",
            "--cache-type-k q8_0",
            "--jinja",
            "--lazy-mode on",
        ]
    );
}

#[test]
fn cmd_body_ends_with_port_and_starts_with_binary() {
    let mut state = ParamBuilderState {
        binary: "taskset -c 0-3 ${llama_server}".into(),
        model_path: Some("/m/x.gguf".into()),
        ..Default::default()
    };
    set(&mut state.values, "--ctx-size", ParamValue::Integer(8192));
    let body = state.cmd_body();
    assert_eq!(body.first().unwrap(), "taskset -c 0-3 ${llama_server}");
    assert_eq!(body[1], "-m /m/x.gguf");
    assert!(body.contains(&"--ctx-size 8192".to_owned()));
    assert_eq!(body.last().unwrap(), "--port ${PORT}");
}

#[test]
fn adjust_clamps_to_bounds() {
    let mut state = ParamBuilderState::default();
    let ctx = find_by_flag("--ctx-size").unwrap();
    // Row index counts headers; walk until the ctx-size param row.
    while state.selected_row() != ParamRow::Param(ctx) {
        state.move_selection(1);
    }
    state.adjust(1).unwrap();
    assert_eq!(state.values.values[ctx], ParamValue::Integer(1024));
    state.adjust(-10).unwrap();
    assert_eq!(state.values.values[ctx], ParamValue::Integer(0));
}

#[test]
fn edit_integer_commit_clamps_and_rejects_garbage() {
    let mut state = ParamBuilderState::default();
    let ctx = find_by_flag("--ctx-size").unwrap();
    state.start_edit_at(EditTarget::Param(ctx));
    state.editing.as_mut().unwrap().buffer = "999999999".into();
    state.commit_edit();
    assert_eq!(state.values.values[ctx], ParamValue::Integer(2_097_152));

    state.start_edit_at(EditTarget::Param(ctx));
    state.editing.as_mut().unwrap().buffer = "nope".into();
    let message = state.commit_edit().unwrap();
    assert!(message.contains("not an integer"));
    // Invalid input keeps the editor open so it can be fixed or Esc'd.
    assert!(state.editing());
    state.edit_key(EditKey::Esc);
    assert!(!state.editing());

    state.start_edit_at(EditTarget::Param(ctx));
    state.editing.as_mut().unwrap().buffer = String::new();
    state.commit_edit();
    assert_eq!(state.values.values[ctx], ParamValue::Unset);
}

#[test]
fn preset_applies_cleared_values() {
    let mut state = ParamBuilderState::default();
    set(&mut state.values, "--ctx-size", ParamValue::Integer(1));
    let message = state.apply_preset(0).unwrap();
    assert!(message.contains("full-VRAM"));
    let ctx = find_by_flag("--ctx-size").unwrap();
    assert_eq!(state.values.values[ctx], ParamValue::Integer(65_536));
    let fa = find_by_flag("--flash-attn").unwrap();
    assert_eq!(state.values.values[fa], ParamValue::On);
    let ctk = find_by_flag("--cache-type-k").unwrap();
    assert_eq!(state.values.values[ctk], ParamValue::Choice(3));
}

#[test]
fn import_parses_known_flags_and_preserves_unknown() {
    let (binary, token_lines, model_path) =
        parse_cmd_block(&SAMPLE.lines().collect::<Vec<_>>()[6..19]).unwrap();
    assert!(binary.ends_with("${llama_server}"), "binary: {binary}");
    assert_eq!(model_path.as_deref(), Some("/models/alpha/model.gguf"));

    let mut state = ParamBuilderState::default();
    state.import(&binary, &token_lines, model_path.as_deref());
    let ctx = find_by_flag("--ctx-size").unwrap();
    assert_eq!(state.values.values[ctx], ParamValue::Integer(65_536));
    let fa = find_by_flag("--flash-attn").unwrap();
    assert_eq!(state.values.values[fa], ParamValue::On);
    let fit = find_by_flag("--fit").unwrap();
    assert_eq!(state.values.values[fit], ParamValue::On);
    let alias = find_by_flag("--alias").unwrap();
    assert_eq!(state.values.values[alias], ParamValue::Text("alpha".into()));
    let host = find_by_flag("--host").unwrap();
    assert_eq!(
        state.values.values[host],
        ParamValue::Text("0.0.0.0".into())
    );
    // Unknown flag preserved verbatim.
    assert!(state
        .values
        .custom
        .iter()
        .any(|line| line == "--lazy-mode on"));
    // --fit-target survived as a paired value.
    let fitt = find_by_flag("--fit-target").unwrap();
    assert_eq!(state.values.values[fitt], ParamValue::Text("512".into()));
}

#[test]
fn parse_cmd_block_handles_one_line_invocation() {
    let lines: Vec<&str> = SAMPLE.lines().collect();
    let beta_start = lines
        .iter()
        .position(|line| line.contains("\"beta\""))
        .unwrap();
    let (binary, token_lines, model_path) = parse_cmd_block(&lines[beta_start..]).unwrap();
    assert_eq!(binary, "llama-server");
    assert_eq!(model_path.as_deref(), Some("/models/beta/beta.gguf"));
    // --port pair is dropped by import (save appends it).
    assert!(token_lines.iter().flatten().any(|token| token == "--port"));
}

#[test]
fn replace_entry_cmd_preserves_surroundings() {
    let mut state = ParamBuilderState {
        binary: "llama-server".into(),
        model_path: Some("/models/beta/beta.gguf".into()),
        ..Default::default()
    };
    set(&mut state.values, "--ctx-size", ParamValue::Integer(4096));
    let body = state.cmd_body();

    let updated = replace_entry_cmd(SAMPLE, "beta", &body).unwrap();
    assert!(updated.contains("  \"beta\":\n    cmd: |\n"));
    assert!(updated.contains("      -m /models/beta/beta.gguf\n"));
    assert!(updated.contains("      --port ${PORT}\n"));
    assert!(updated.contains("--ctx-size 4096"));
    // Alpha untouched, trailing top-level structure intact.
    assert!(updated.contains("--lazy-mode on"));
    assert!(updated.contains(r#"- "GGML_CUDA_GRAPH_OPT=1""#));

    let reparsed = parse_entries(&updated);
    assert_eq!(reparsed.len(), 2);
    assert_eq!(reparsed[1].id, "beta");
    assert_eq!(
        reparsed[1].model_path.as_deref(),
        Some("/models/beta/beta.gguf")
    );
}

#[test]
fn replace_entry_cmd_errors_for_unknown_or_blockless_entries() {
    let body = vec!["llama-server".to_owned()];
    assert!(replace_entry_cmd(SAMPLE, "missing", &body).is_err());
    let minimal = "models:\n  \"gamma\":\n    ttl: 60\n";
    assert!(replace_entry_cmd(minimal, "gamma", &body).is_err());
}

#[test]
fn edit_key_handles_typing_and_escape() {
    let mut state = ParamBuilderState::default();
    state.start_edit_at(EditTarget::CustomNew);
    for character in "abc ".chars() {
        state.edit_key(EditKey::Char(character));
    }
    state.edit_key(EditKey::Backspace);
    let status = state.edit_key(EditKey::Enter).unwrap();
    assert!(status.is_empty());
    assert_eq!(state.values.custom, vec!["abc".to_owned()]);
    assert!(!state.editing());

    state.start_edit_at(EditTarget::CustomNew);
    let status = state.edit_key(EditKey::Esc).unwrap();
    assert_eq!(status, "edit cancelled");
    assert_eq!(state.values.custom, vec!["abc".to_owned()]);
}

#[test]
fn delete_custom_removes_and_clamps() {
    let mut state = ParamBuilderState::default();
    state.values.custom = vec!["--a".into(), "--b".into()];
    // Wrap to the last selectable row (AddCustom), then back one.
    state.move_selection(-1);
    state.move_selection(-1);
    assert!(matches!(state.selected_row(), ParamRow::Custom(1)));
    state.delete_custom().unwrap();
    assert_eq!(state.values.custom, vec!["--a".to_owned()]);
}

/// Round-trip every entry of a file: import its cmd block, regenerate it, re-import the
/// regenerated block — the value state must be identical.
#[test]
fn import_real_yaml_entries_round_trip() {
    let text = SAMPLE.to_owned();
    let lines: Vec<&str> = text.lines().collect();
    let mut seen = 0;
    for entry in parse_entries(&text) {
        let (start, end) = entry_span(&lines, &entry.id).unwrap();
        let (binary, token_lines, model_path) = parse_cmd_block(&lines[start..end]).unwrap();
        let mut state = ParamBuilderState::default();
        state.import(&binary, &token_lines, model_path.as_deref());
        let body = state.cmd_body();

        let updated = replace_entry_cmd(&text, &entry.id, &body).unwrap();
        let lines2: Vec<&str> = updated.lines().collect();
        let (start2, end2) = entry_span(&lines2, &entry.id).unwrap();
        let (binary2, token_lines2, model2) = parse_cmd_block(&lines2[start2..end2])
            .expect("regenerated cmd block did not parse");
        assert_eq!(model2, model_path, "entry {}: -m changed", entry.id);
        let mut state2 = ParamBuilderState::default();
        state2.import(&binary2, &token_lines2, model2.as_deref());
        assert_eq!(
            state2.values, state.values,
            "entry {}: round trip diverged",
            entry.id
        );
        assert_eq!(binary2, binary);
        assert_eq!(state.binary, binary);
        seen += 1;
    }
    assert_eq!(seen, 2);
}

#[test]
fn default_state_is_empty() {
    let state = ParamBuilderState::default();
    assert_eq!(state.binary, "llama-server");
    assert_eq!(state.model_path, None);
    assert_eq!(state.focus, ParamFocus::List);
    assert_eq!(state.overlay, None);
    assert_eq!(state.values, ParamValues::new());
    assert_eq!(state.values.values.len(), REGISTRY_LEN);
    assert_eq!(state.cmd_body(), vec!["llama-server", "--port ${PORT}"]);
    assert_eq!(state.preview_lines(), state.cmd_body());
    assert_ne!(ParamOverlay::Presets, ParamOverlay::Entries { import: true });
}

#[test]
fn texts_with_spaces_are_quoted_again() {
    let mut values = ParamValues::new();
    set(&mut values, "--alias", ParamValue::Text("  two words ".into()));
    assert_eq!(values.generate_flags(), vec!["--alias \"two words\""]);
    set(&mut values, "--alias", ParamValue::Text("say \"hi\" now".into()));
    assert_eq!(values.generate_flags(), vec!["--alias 'say \"hi\" now'"]);
    set(&mut values, "--alias", ParamValue::Text("a\"b c'd".into()));
    assert_eq!(values.generate_flags(), vec!["--alias \"a\"b c'd\""]);
    set(&mut values, "--alias", ParamValue::Text("one".into()));
    assert_eq!(values.generate_flags(), vec!["--alias one"]);
    set(&mut values, "--alias", ParamValue::Text("   ".into()));
    assert!(values.generate_flags().is_empty());
    set(&mut values, "--cache-type-k", ParamValue::Choice(99));
    assert!(values.generate_flags().is_empty());
    values.custom.push(" --x ".into());
    assert_eq!(values.generate_flags(), vec!["--x"]);
    values.clear();
    assert_eq!(values, ParamValues::new());
}

#[test]
fn quoted_texts_survive_import_and_writing() {
    let body = [
        "cmd: |",
        "  llama-server --alias \"two  words\"",
        "  --override-tensor 'a=\"b\" c' --unknown \"x y\" z",
    ];
    let (binary, lines, model) = parse_cmd_block(&body).unwrap();
    let mut state = ParamBuilderState::default();
    state.import(&binary, &lines, model.as_deref());
    let alias = find_by_flag("--alias").unwrap();
    assert_eq!(
        state.values.values[alias],
        ParamValue::Text("two  words".into())
    );
    assert_eq!(state.values.custom, vec!["--unknown \"x y\" z".to_owned()]);
    let again: Vec<String> = state
        .cmd_body()
        .into_iter()
        .map(|line| format!("  {line}"))
        .collect();
    let mut text: Vec<&str> = vec!["cmd: |"];
    text.extend(again.iter().map(|line| line.as_str()));
    let (binary2, lines2, model2) = parse_cmd_block(&text).unwrap();
    let mut state2 = ParamBuilderState::default();
    state2.import(&binary2, &lines2, model2.as_deref());
    assert_eq!(state2.values, state.values);
    assert_eq!(state2.binary, state.binary);
}

#[test]
fn import_keeps_what_it_cannot_represent() {
    let mut state = ParamBuilderState::default();
    let lines: Vec<Vec<String>> = vec![
        vec!["--ctx-size".into(), "many".into(), "--jinja".into()],
        vec!["--ctx-size=77".into(), "--what=ever".into(), "--temp".into()],
        vec!["orphan".into(), "--jinja".into()],
        vec!["-".into(), "x".into()],
        vec!["--port".into(), "80".into(), "--metrics".into(), "--port=9".into()],
        vec!["--jinja=1".into()],
        vec!["--fit='off'".into()],
    ];
    state.import("  ", &lines, Some("/m"));
    assert_eq!(state.binary, "llama-server");
    assert_eq!(state.model_path.as_deref(), Some("/m"));
    let at = |flag: &str| state.values.values[find_by_flag(flag).unwrap()].clone();
    assert_eq!(at("--ctx-size"), ParamValue::Integer(77));
    assert_eq!(at("--jinja"), ParamValue::On);
    assert_eq!(at("--metrics"), ParamValue::On);
    assert_eq!(at("--fit"), ParamValue::Off);
    assert_eq!(
        state.values.custom,
        vec![
            "--ctx-size many".to_owned(),
            "--what=ever".to_owned(),
            "--temp".to_owned(),
            "orphan --jinja".to_owned(),
            "- x".to_owned(),
            "--jinja=1".to_owned(),
        ]
    );
}

#[test]
fn blocks_without_a_server_binary_hold_flags_only() {
    let body = ["cmd: |", "  --jinja -c 512", "  -m \"/m/a b.gguf\"", ""];
    let (binary, lines, model) = parse_cmd_block(&body).unwrap();
    assert_eq!(binary, "llama-server");
    assert_eq!(lines, vec![vec!["--jinja", "-c", "512"]]);
    assert_eq!(model.as_deref(), Some("/m/a b.gguf"));
}

#[test]
fn blocks_end_at_the_next_key() {
    let body = [
        "    cmd: |",
        "      env A=1",
        "",
        "      ${my_server} --jinja -m",
        "   ",
        "    ttl: 5",
        "      --metrics",
    ];
    let (binary, lines, model) = parse_cmd_block(&body).unwrap();
    assert_eq!(binary, "env A=1 ${my_server}");
    assert_eq!(lines, vec![vec!["--jinja", "-m"]]);
    assert_eq!(model, None);
    assert!(parse_cmd_block(&["cmd: llama-server"]).is_none());
    assert!(parse_cmd_block(&["cmd: |", "", "ttl: 5"]).is_none());
    assert!(parse_cmd_block(&[]).is_none());
}

#[test]
fn replacing_keeps_the_text_around_the_block() {
    let file = "models:\n  a:\n    cmd: |\n      old\n      older\n\n    ttl: 5\n  b:\n    cmd: x";
    let body = vec!["new".to_owned(), "--port ${PORT}".to_owned()];
    assert_eq!(
        replace_entry_cmd(file, "a", &body).unwrap(),
        "models:\n  a:\n    cmd: |\n      new\n      --port ${PORT}\n\n    ttl: 5\n  b:\n    cmd: x"
    );
    assert_eq!(
        replace_entry_cmd(file, "b", &body).unwrap(),
        "models:\n  a:\n    cmd: |\n      old\n      older\n\n    ttl: 5\n  b:\n    cmd: x\n      new\n      --port ${PORT}"
    );
}

#[test]
fn refused_replacements_say_why() {
    let body = vec!["llama-server".to_owned()];
    let missing = replace_entry_cmd(SAMPLE, "mis\"sing", &body).unwrap_err();
    assert_eq!(missing, SwapYamlError::ModelNotFound("mis\"sing".into()));
    assert_eq!(
        missing.message(),
        "model \"mis\\\"sing\" not found in llama-swap.yaml"
    );
    let nowhere = replace_entry_cmd("other: 1", "a", &body).unwrap_err();
    assert_eq!(nowhere, SwapYamlError::ModelNotFound("a".into()));
    let minimal = "models:\n  \"gamma\":\n    ttl: 60\n";
    let blockless = replace_entry_cmd(minimal, "gamma", &body).unwrap_err();
    assert_eq!(blockless, SwapYamlError::NoCmdBlock("gamma".into()));
    assert_eq!(blockless.message(), "entry \"gamma\" has no cmd block");
}

#[test]
fn activation_cycles_through_the_values() {
    let mut state = ParamBuilderState::default();
    let jinja = select(&mut state, "--jinja");
    let label = l3ms::param_registry::registry()[jinja].label;
    assert_eq!(state.activate(), Some(format!("{label} toggled")));
    assert_eq!(state.values.values[jinja], ParamValue::On);
    state.activate();
    assert_eq!(state.values.values[jinja], ParamValue::Unset);

    let fa = select(&mut state, "--flash-attn");
    let label = l3ms::param_registry::registry()[fa].label;
    assert_eq!(state.activate(), Some(format!("{label} = ON")));
    assert_eq!(state.activate(), Some(format!("{label} = off")));
    assert_eq!(state.values.values[fa], ParamValue::Off);
    assert_eq!(state.activate(), Some(format!("{label} = auto")));
    assert_eq!(state.values.values[fa], ParamValue::Unset);

    let ctk = select(&mut state, "--cache-type-k");
    let options = l3ms::param_registry::registry()[ctk].kind_options().unwrap();
    for index in 0..options.len() {
        state.activate();
        assert_eq!(state.values.values[ctk], ParamValue::Choice(index));
    }
    state.activate();
    assert_eq!(state.values.values[ctk], ParamValue::Unset);
}

#[test]
fn activation_opens_the_editor() {
    let mut state = ParamBuilderState::default();
    let ctx = select(&mut state, "--ctx-size");
    state.values.values[ctx] = ParamValue::Integer(-3);
    assert_eq!(state.activate(), Some(String::new()));
    let edit = state.editing.clone().unwrap();
    assert_eq!(edit.target, EditTarget::Param(ctx));
    assert_eq!(edit.buffer, "-3");
    state.edit_key(EditKey::Esc);

    let alias = select(&mut state, "--alias");
    state.values.values[alias] = ParamValue::Text("name".into());
    state.activate();
    assert_eq!(state.editing.clone().unwrap().buffer, "name");
    state.edit_key(EditKey::Esc);

    state.values.custom = vec!["--a 1".into()];
    state.selected = REGISTRY_LEN;
    state.activate();
    let edit = state.editing.clone().unwrap();
    assert_eq!(edit.target, EditTarget::Custom(0));
    assert_eq!(edit.buffer, "--a 1");
    state.edit_key(EditKey::Esc);
    state.selected = REGISTRY_LEN + 1;
    state.activate();
    assert_eq!(state.editing.unwrap().target, EditTarget::CustomNew);
}

#[test]
fn commits_store_trimmed_texts() {
    let mut state = ParamBuilderState::default();
    let alias = find_by_flag("--alias").unwrap();
    state.start_edit_at(EditTarget::Param(alias));
    for character in "  my name ".chars() {
        assert_eq!(state.edit_key(EditKey::Char(character)), None);
    }
    assert_eq!(state.edit_key(EditKey::Other), None);
    assert_eq!(state.edit_key(EditKey::Enter), Some(String::new()));
    assert_eq!(
        state.values.values[alias],
        ParamValue::Text("my name".into())
    );
    state.values.custom = vec!["--a".into(), "--b".into()];
    state.start_edit_at(EditTarget::Custom(0));
    state.editing.as_mut().unwrap().buffer = " --c ".into();
    state.commit_edit();
    assert_eq!(state.values.custom, vec!["--c".to_owned(), "--b".to_owned()]);
    state.start_edit_at(EditTarget::Custom(1));
    state.editing.as_mut().unwrap().buffer = "  ".into();
    state.selected = REGISTRY_LEN + 2;
    state.commit_edit();
    assert_eq!(state.values.custom, vec!["--c".to_owned()]);
    assert_eq!(state.selected, REGISTRY_LEN + 1);
    state.start_edit_at(EditTarget::CustomNew);
    assert_eq!(state.commit_edit(), Some(String::new()));
    assert_eq!(state.values.custom.len(), 1);
    assert_eq!(state.commit_edit(), None);
    assert_eq!(state.edit_key(EditKey::Enter), None);
}

#[test]
fn commit_messages_name_the_flag() {
    let mut state = ParamBuilderState::default();
    let ctx = find_by_flag("--ctx-size").unwrap();
    let label = l3ms::param_registry::registry()[ctx].label;
    state.start_edit_at(EditTarget::Param(ctx));
    state.editing.as_mut().unwrap().buffer = " a\"b ".into();
    assert_eq!(
        state.commit_edit(),
        Some(format!(
            "{label}: \"a\\\"b\" is not an integer (0..=2097152)"
        ))
    );
    state.editing.as_mut().unwrap().buffer = " ".into();
    assert_eq!(state.commit_edit(), Some(format!("{label} cleared")));
    state.start_edit_at(EditTarget::Param(ctx));
    state.editing.as_mut().unwrap().buffer = "-7".into();
    state.commit_edit();
    assert_eq!(state.values.values[ctx], ParamValue::Integer(0));
}

#[test]
fn the_editor_has_a_limit_in_bytes() {
    let mut state = ParamBuilderState::default();
    state.start_edit_at(EditTarget::CustomNew);
    for _ in 0..MAX_EDIT_LEN {
        state.edit_key(EditKey::Char('é'));
    }
    let buffer = state.editing.clone().unwrap().buffer;
    assert_eq!(buffer.len(), MAX_EDIT_LEN);
    assert_eq!(buffer.chars().count(), MAX_EDIT_LEN / 2);
    state.edit_key(EditKey::Backspace);
    assert_eq!(
        state.editing.clone().unwrap().buffer.len(),
        MAX_EDIT_LEN - 2
    );
    state.editing.as_mut().unwrap().buffer.clear();
    assert_eq!(state.edit_key(EditKey::Backspace), None);
    assert_eq!(state.editing.unwrap().buffer, "");
}

#[test]
fn moves_wrap_and_come_back() {
    let mut state = ParamBuilderState::default();
    let count = (REGISTRY_LEN + 1) as isize;
    state.move_selection(5 - 3 * count);
    assert_eq!(state.selected, 5);
    state.move_selection(-7);
    assert_eq!(state.selected, REGISTRY_LEN - 1);
    state.move_selection(7);
    assert_eq!(state.selected, 5);
}

#[test]
fn rows_are_selected_by_position() {
    let mut state = ParamBuilderState::default();
    state.values.custom = vec!["--a".into()];
    let rows = state.rows();
    for (position, row) in rows.iter().enumerate() {
        let before = state.selected;
        state.select_row_position(position);
        if row.is_selectable() {
            assert_eq!(state.selected_row_position(), (position, *row));
        } else {
            assert_eq!(state.selected, before);
        }
    }
    let before = state.selected;
    state.select_row_position(rows.len());
    assert_eq!(state.selected, before);
    state.selected = 1000;
    assert_eq!(state.selected_row(), ParamRow::Param(0));
    state.clamp_selection();
    assert_eq!(state.selected_row(), ParamRow::AddCustom);
    assert_eq!(state.delete_custom(), None);
}

#[test]
fn adjusting_is_for_numbers_only() {
    let mut state = ParamBuilderState::default();
    select(&mut state, "--jinja");
    assert_eq!(state.adjust(1), None);
    state.move_selection(-1);
    let ctx = select(&mut state, "--ctx-size");
    let label = l3ms::param_registry::registry()[ctx].label;
    state.values.values[ctx] = ParamValue::Integer(2_097_000);
    assert_eq!(state.adjust(1), Some(format!("{label} = 2097152")));
    state.selected = REGISTRY_LEN;
    assert_eq!(state.adjust(1), None);
}

#[test]
fn presets_replace_everything() {
    let mut first = ParamBuilderState::default();
    let mut second = ParamBuilderState::default();
    second.values.custom = vec!["--x".into()];
    set(&mut second.values, "--temp", ParamValue::Text("1".into()));
    for index in 0..l3ms::param_registry::PRESET_COUNT {
        let message = first.apply_preset(index).unwrap();
        assert_eq!(Some(message), second.apply_preset(index));
        assert_eq!(first.values, second.values);
        assert!(first.values.custom.is_empty());
    }
    let before = first.values.clone();
    assert_eq!(first.apply_preset(l3ms::param_registry::PRESET_COUNT), None);
    assert_eq!(first.values, before);
}

#[test]
fn messages_are_put_together_from_their_parts() {
    assert_eq!(
        not_integer_message("ctx", "<x>", -1, 5),
        "ctx: <x> is not an integer (-1..=5)"
    );
}

#[test]
fn committing_an_unchanged_number_keeps_it() {
    let mut state = ParamBuilderState::default();
    let ctx = find_by_flag("--ctx-size").unwrap();
    for value in [0, 1, 65_536, 2_097_152] {
        state.values.values[ctx] = ParamValue::Integer(value);
        state.start_edit_at(EditTarget::Param(ctx));
        state.commit_edit();
        assert_eq!(state.values.values[ctx], ParamValue::Integer(value));
    }
}

#[test]
fn some_commands_do_not_survive_being_written() {
    // White space inside a model path is not quoted again.
    let body = ["cmd: |", "  llama-server -m \"/a b\""];
    let (binary, lines, model) = parse_cmd_block(&body).unwrap();
    assert_eq!(model.as_deref(), Some("/a b"));
    let mut state = ParamBuilderState::default();
    state.import(&binary, &lines, model.as_deref());
    assert_eq!(state.cmd_body()[1], "-m /a b");
    // White space around a text is trimmed away.
    let mut values = ParamValues::new();
    set(&mut values, "--alias", ParamValue::Text(" a ".into()));
    assert_eq!(values.generate_flags(), vec!["--alias a"]);
}

#[test]
fn an_unknown_flag_takes_its_values_up_to_the_next_flag() {
    let mut state = ParamBuilderState::default();
    let line: Vec<String> = ["--lazy-mode", "on", "--jinja"]
        .iter()
        .map(|token| (*token).to_owned())
        .collect();
    state.import("llama-server", &[line], None);
    assert_eq!(state.values.custom, vec!["--lazy-mode on".to_owned()]);
    let jinja = find_by_flag("--jinja").unwrap();
    assert_eq!(state.values.values[jinja], ParamValue::On);

    let line: Vec<String> = ["--a", "x", "-", "y", "--b=1", "-c", "7", "stray", "--jinja"]
        .iter()
        .map(|token| (*token).to_owned())
        .collect();
    state.import("llama-server", &[line], None);
    assert_eq!(
        state.values.custom,
        vec![
            "--a x - y".to_owned(),
            "--b=1".to_owned(),
            "stray --jinja".to_owned()
        ]
    );
    let ctx = find_by_flag("--ctx-size").unwrap();
    assert_eq!(state.values.values[ctx], ParamValue::Integer(7));
    assert_eq!(state.values.values[jinja], ParamValue::Unset);
}

#[test]
fn a_toggle_is_written_only_when_switched_on() {
    let mut values = ParamValues::new();
    set(&mut values, "--jinja", ParamValue::Off);
    assert_eq!(values.generate_flags(), Vec::<String>::new());
    set(&mut values, "--jinja", ParamValue::On);
    set(&mut values, "--fit", ParamValue::Off);
    set(&mut values, "--ctx-size", ParamValue::Off);
    assert_eq!(
        values.generate_flags(),
        vec!["--ctx-size off", "--fit off", "--jinja"]
    );
}

#[test]
fn server_binaries_are_recognised() {
    for server in [
        "llama-server",
        "llama-server-exp",
        "/opt/bin/llama-server-exp",
        "${llama_server}",
        "${qwen38_master_server}",
    ] {
        let line = format!("  nice {server} --jinja");
        let (binary, lines, model) = parse_cmd_block(&["cmd: |", &line]).unwrap();
        assert_eq!(binary, format!("nice {server}"));
        assert_eq!(lines, vec![vec!["--jinja".to_owned()]]);
        assert_eq!(model, None);
    }
    for token in [
        "/llama-server-dir/run",
        "/logs/llama-server.log",
        "llama-server-exp.log",
        "LOG=llama-server-exp",
        "llama-servers",
    ] {
        let line = format!("  {token} --jinja");
        let (binary, lines, _) = parse_cmd_block(&["cmd: |", &line]).unwrap();
        assert_eq!(binary, "llama-server");
        assert_eq!(lines, vec![vec![token.to_owned(), "--jinja".to_owned()]]);
    }
    let body = ["cmd: |", "  env LOG=/v/llama-server.log llama-server --jinja"];
    let (binary, lines, _) = parse_cmd_block(&body).unwrap();
    assert_eq!(binary, "env LOG=/v/llama-server.log llama-server");
    assert_eq!(lines, vec![vec!["--jinja".to_owned()]]);
    let body = ["cmd: |", "  -m /m/llama-server-x.gguf --jinja"];
    let (binary, lines, model) = parse_cmd_block(&body).unwrap();
    assert_eq!(binary, "llama-server");
    assert_eq!(lines, vec![vec!["--jinja".to_owned()]]);
    assert_eq!(model.as_deref(), Some("/m/llama-server-x.gguf"));
}

#[test]
fn replacing_keeps_every_line_ending() {
    let file = "models:\r\n  a:\r\n    name: x\n    cmd: |\r\n      old\r\n    ttl: 1\r\n\r\n";
    let updated = replace_entry_cmd(file, "a", &["new".to_owned()]).unwrap();
    assert_eq!(
        updated,
        "models:\r\n  a:\r\n    name: x\n    cmd: |\r\n      new\n    ttl: 1\r\n\r\n"
    );
    let bare = "models:\n  a:\n    cmd: |\r";
    let updated = replace_entry_cmd(bare, "a", &["new".to_owned()]).unwrap();
    assert_eq!(updated, "models:\n  a:\n    cmd: |\r\n      new");
    assert_eq!(replace_entry_cmd(bare, "a", &[]).unwrap(), bare);
}

#[test]
fn a_negative_number_is_a_value() {
    let mut state = ParamBuilderState::default();
    let lines: Vec<Vec<String>> = [
        vec!["--unknown", "-1", "--jinja"],
        vec!["--other", "-x"],
        vec!["-7", "8"],
    ]
    .iter()
    .map(|line| line.iter().map(|token| (*token).to_owned()).collect())
    .collect();
    state.import("llama-server", &lines, None);
    assert_eq!(
        state.values.custom,
        vec![
            "--unknown -1".to_owned(),
            "--other".to_owned(),
            "-x".to_owned(),
            "-7 8".to_owned()
        ]
    );
    let jinja = find_by_flag("--jinja").unwrap();
    assert_eq!(state.values.values[jinja], ParamValue::On);
}

#[test]
fn a_refused_number_needs_no_place_for_its_value() {
    let ctx = find_by_flag("--ctx-size").unwrap();
    let edit = |buffer: &str| {
        let mut state = ParamBuilderState::default();
        state.start_edit_at(EditTarget::Param(ctx));
        state.editing.as_mut().unwrap().buffer = buffer.to_owned();
        state.values.values.clear();
        state
    };
    let mut state = edit("nope");
    assert!(state.can_commit());
    assert!(state.commit_edit().unwrap().contains("not an integer"));
    assert!(state.editing());
    assert!(!edit("7").can_commit());
    assert!(!edit(" ").can_commit());
    let mut state = ParamBuilderState::default();
    assert!(state.can_commit());
    state.start_edit_at(EditTarget::CustomNew);
    assert!(state.can_commit());
}

#[test]
fn commands_without_quotes_survive() {
    let body = [
        "cmd: |",
        "  nice -n 5",
        "  /opt/llama-server-exp -m /m/a.gguf --jinja --alias=x=y",
        "",
        "  --seed -1 --mystery -2 on -c 99999999999 stray --fit on",
        "  --port 1 -fa auto --top-k",
    ];
    let (binary, lines, model) = parse_cmd_block(&body).unwrap();
    let mut state = ParamBuilderState::default();
    state.import(&binary, &lines, model.as_deref());
    let written: Vec<String> = std::iter::once("cmd: |".to_owned())
        .chain(state.cmd_body().iter().map(|line| format!("  {line}")))
        .collect();
    let written: Vec<&str> = written.iter().map(String::as_str).collect();
    let (binary, lines, model) = parse_cmd_block(&written).unwrap();
    let mut again = ParamBuilderState::default();
    again.import(&binary, &lines, model.as_deref());
    assert_eq!(again.values, state.values);
    assert_eq!(again.binary, state.binary);
    assert_eq!(again.model_path, state.model_path);
    assert_eq!(again.binary, "nice -n 5 /opt/llama-server-exp");
}
