use l3ms::civil_date::date_of_day;
use l3ms::swap_files::{
    disk_size, format_utc_timestamp, free_snapshot_name, router_pids, shard_sizes_fit, shard_span,
    snapshot_name, sum_shards, temp_name, RouterNotRunning, Sibling,
};
use l3ms::swap_yaml::{
    entry_span, merge_into, no_block_message, not_found_message, parse_entries, set_disabled,
    SwapModel, SwapYamlError,
};

const SAMPLE: &str = r#"apiKeys: []
startPort: 10001

models:
  "alpha":
    name: "Alpha"
    cmd: |
      llama-server -m /models/alpha/model.gguf --port ${PORT}

  "beta-shard":
    name: "Beta"
    cmd: |
      llama-server
      -m /models/beta/beta-00001-of-00003.gguf
      --port ${PORT}

on_startup:
  preload: []
"#;

#[test]
fn parses_entries_with_state_and_paths() {
    let entries = parse_entries(SAMPLE);
    assert_eq!(entries.len(), 2);
    assert_eq!(entries[0].id, "alpha");
    assert!(!entries[0].disabled);
    assert_eq!(
        entries[0].model_path.as_deref(),
        Some("/models/alpha/model.gguf")
    );
    assert_eq!(entries[1].id, "beta-shard");
    assert_eq!(
        entries[1].model_path.as_deref(),
        Some("/models/beta/beta-00001-of-00003.gguf")
    );
}

#[test]
fn skips_commented_and_top_level_keys() {
    let text = "models:\n  # \"old\":\n  #   cmd: x\nother: 1\n";
    assert!(parse_entries(text).is_empty());
    assert!(parse_entries("no models here").is_empty());
}

#[test]
fn scalar_children_of_sibling_blocks_are_not_entries() {
    let text = "models:\n  \"alpha\":\n    cmd: x\nhooks:\n  on_startup:\n    preload:\n      - \"m\"\n";
    let entries = parse_entries(text);
    assert_eq!(entries.len(), 1);
    assert_eq!(entries[0].id, "alpha");
}

#[test]
fn round_trips_disable_and_enable() {
    let disabled = set_disabled(SAMPLE, "alpha", true).unwrap();
    assert!(disabled.contains("  \"alpha\":\n    disabled: true\n"));
    let entries = parse_entries(&disabled);
    assert!(entries[0].disabled);

    let enabled = set_disabled(&disabled, "alpha", false).unwrap();
    assert_eq!(enabled, SAMPLE);
    assert!(!parse_entries(&enabled)[0].disabled);
}

#[test]
fn disable_is_idempotent_and_unknown_model_errors() {
    let once = set_disabled(SAMPLE, "beta-shard", true).unwrap();
    assert_eq!(set_disabled(&once, "beta-shard", true).unwrap(), once);
    assert!(set_disabled(SAMPLE, "missing", true).is_err());
    assert!(set_disabled("other: 1", "alpha", true).is_err());
}

#[test]
fn enable_without_flag_is_noop() {
    assert_eq!(set_disabled(SAMPLE, "alpha", false).unwrap(), SAMPLE);
}

#[test]
fn shard_span_matches_gguf_shard_names() {
    let name = "model-00001-of-00033.gguf";
    let ((start, end), count) = shard_span(name).unwrap();
    assert_eq!(count, 33);
    assert_eq!(&name[..start], "model-");
    assert_eq!(&name[end..], "-of-00033.gguf");
    assert!(shard_span("model.gguf").is_none());
    assert!(shard_span("model-00001-of-00033.bin").is_some());
}

#[test]
fn disk_size_sums_shards() {
    let mut dir: Vec<Sibling> = Vec::new();
    for name in ["m-00001-of-00003.gguf", "m-00002-of-00003.gguf"] {
        dir.push(Sibling {
            name: name.to_owned(),
            size: Some(10),
        });
    }
    assert_eq!(disk_size("m-00001-of-00003.gguf", &dir, Some(10)), Some(20));
    dir.push(Sibling {
        name: "single.gguf".to_owned(),
        size: Some(7),
    });
    assert_eq!(disk_size("single.gguf", &dir, Some(7)), Some(7));
    assert_eq!(disk_size("missing-00001-of-00003.gguf", &dir, None), None);
}

#[test]
fn merge_into_fills_disabled_and_size() {
    let text = format!(
        "models:\n  \"alpha\":\n    disabled: true\n    cmd: |\n      -m {}\n",
        "/models/model.gguf"
    );
    let mut models = vec![SwapModel {
        id: "alpha".into(),
        state: "unloaded".into(),
        name: String::new(),
        description: String::new(),
        created: None,
        disabled: false,
        size_bytes: None,
    }];
    assert_eq!(
        parse_entries(&text)[0].model_path.as_deref(),
        Some("/models/model.gguf")
    );
    merge_into(&mut models, &text, &[Some(5)]);
    assert!(models[0].disabled);
    assert_eq!(models[0].size_bytes, Some(5));
}

#[test]
fn format_utc_timestamp_matches_known_dates() {
    assert_eq!(format_utc_timestamp(0), "19700101-000000");
    assert_eq!(format_utc_timestamp(1_709_164_800), "20240229-000000");
}

#[test]
fn timestamps_at_the_edges() {
    assert_eq!(format_utc_timestamp(86_399), "19700101-235959");
    assert_eq!(format_utc_timestamp(951_782_400), "20000229-000000");
    assert_eq!(format_utc_timestamp(4_107_542_399), "21000228-235959");
    assert_eq!(format_utc_timestamp(4_107_542_400), "21000301-000000");
    assert_eq!(format_utc_timestamp(253_402_300_799), "99991231-235959");
    assert_eq!(format_utc_timestamp(253_402_300_800), "100000101-000000");
    assert_eq!(date_of_day(365), (1971, 1, 1));
    assert_eq!(date_of_day(11_016), (2000, 2, 29));
}

#[test]
fn dates_follow_each_other() {
    let mut expected = (1970, 1, 1);
    for day in 0..200_000 {
        assert_eq!(date_of_day(day), expected);
        let (year, month, date) = expected;
        let leap = year % 4 == 0 && (year % 100 != 0 || year % 400 == 0);
        let last = match month {
            2 => 28 + u64::from(leap),
            4 | 6 | 9 | 11 => 30,
            _ => 31,
        };
        expected = if date < last {
            (year, month, date + 1)
        } else if month < 12 {
            (year, month + 1, 1)
        } else {
            (year + 1, 1, 1)
        };
    }
}

#[test]
fn snapshots_get_names_of_their_own() {
    assert_eq!(
        snapshot_name("llama-swap.yaml", 0, 0),
        "llama-swap.yaml.bak-19700101-000000"
    );
    assert_eq!(
        snapshot_name("llama-swap.yaml", 0, 1),
        "llama-swap.yaml.bak-19700101-000000-1"
    );
    assert_eq!(
        snapshot_name("llama-swap.yaml", 0, 12),
        "llama-swap.yaml.bak-19700101-000000-12"
    );
    assert_eq!(
        temp_name("a.yaml", 42, 170_000_000_000_000_000_000),
        ".a.yaml.tmp-42-170000000000000000000"
    );
}

#[test]
fn router_pids_leave_out_what_is_no_process() {
    assert_eq!(
        router_pids("12\n  34 \n1\n0\n-5\nx\n99999999999\n2147483647\n"),
        Ok(vec![12, 34, 2_147_483_647])
    );
    assert_eq!(router_pids("1\n\n"), Err(RouterNotRunning));
    assert_eq!(
        RouterNotRunning.message(),
        "no running llama-swap process found"
    );
}

#[test]
fn shard_names_are_read_from_the_first_separator() {
    assert_eq!(shard_span("é-3-of-3"), Some(((3, 4), 3)));
    assert_eq!(shard_span("x-4-of-3"), None);
    assert_eq!(shard_span("x-of-3"), None);
    assert_eq!(shard_span("x-1-of-"), None);
    assert_eq!(shard_span("1-of-2-of-x"), Some(((0, 1), 2)));
    assert_eq!(shard_span("a-of-1-of-2"), None);
    assert_eq!(shard_span("9-of-99999999999999999999999"), None);
}

fn sibling(name: &str, size: Option<u64>) -> Sibling {
    Sibling {
        name: name.into(),
        size,
    }
}

#[test]
fn shard_sums_need_every_size() {
    let dir = vec![
        sibling("m-1-of-3.gguf", Some(4)),
        sibling("m-2-of-3.gguf", Some(5)),
        sibling("n-2-of-3.gguf", Some(100)),
        sibling("m-22-of-3.gguf", Some(100)),
        sibling("m-2-of-3.bin", Some(100)),
    ];
    assert_eq!(sum_shards("m-1-of-3.gguf", 2, 3, &dir), Some(9));
    assert_eq!(sum_shards("q-1-of-3.gguf", 2, 3, &dir), None);
    let mut holes = dir.clone();
    holes.push(sibling("m-3-of-3.gguf", None));
    assert_eq!(sum_shards("m-1-of-3.gguf", 2, 3, &holes), None);
    assert_eq!(disk_size("m-1-of-3.gguf", &holes, Some(4)), Some(4));
    assert_eq!(disk_size("m-1-of-1.gguf", &dir, Some(3)), Some(3));
}

#[test]
fn edits_touch_nothing_else() {
    let disabled = set_disabled(SAMPLE, "beta-shard", true).unwrap();
    let before = parse_entries(SAMPLE);
    let after = parse_entries(&disabled);
    assert_eq!(before[0], after[0]);
    assert!(after[1].disabled);
    assert_eq!(before[1].model_path, after[1].model_path);
    let both = set_disabled(&disabled, "alpha", true).unwrap();
    assert!(parse_entries(&both).iter().all(|entry| entry.disabled));
}

#[test]
fn comments_survive_enabling() {
    let file = "models:\n  a:\n    # disabled: true\n    disabled: true\n    disabled:   true # off\n    disabled: false\n    x: 1";
    let enabled = set_disabled(file, "a", false).unwrap();
    assert_eq!(
        enabled,
        "models:\n  a:\n    # disabled: true\n    x: 1"
    );
    assert_eq!(set_disabled(&enabled, "a", false).unwrap(), enabled);
    assert!(!parse_entries(&enabled)[0].disabled);
}

#[test]
fn refused_edits_say_why() {
    let missing = set_disabled(SAMPLE, "no\u{e9}", true).unwrap_err();
    assert_eq!(missing, SwapYamlError::ModelNotFound("no\u{e9}".into()));
    assert_eq!(
        missing.message(),
        "model \"no\u{e9}\" not found in llama-swap.yaml"
    );
    let nowhere = set_disabled("other: 1", "alpha", true).unwrap_err();
    assert_eq!(nowhere, SwapYamlError::NoModelsSection);
    assert_eq!(nowhere.message(), "no models section found");
}

#[test]
fn line_endings_survive_edits() {
    let file = "models:\r\n  a:\r\n    # note\r\n    x: 1\r\n";
    let disabled = set_disabled(file, "a", true).unwrap();
    assert_eq!(
        disabled,
        "models:\r\n  a:\r\n    disabled: true\n    # note\r\n    x: 1\r\n"
    );
    assert_eq!(set_disabled(&disabled, "a", true).unwrap(), disabled);
    assert_eq!(set_disabled(&disabled, "a", false).unwrap(), file);
    let unended = "models:\n  a:\r";
    let disabled = set_disabled(unended, "a", true).unwrap();
    assert_eq!(disabled, "models:\n  a:\r\n    disabled: true");
    assert!(parse_entries(&disabled)[0].disabled);
    assert_eq!(set_disabled(&disabled, "a", false).unwrap(), unended);
}

#[test]
fn enabling_removes_any_active_disabled_line() {
    let file = "models:\n  \"a\":\n    disabled: false\n    cmd: x\n";
    assert!(!parse_entries(file)[0].disabled);
    let enabled = set_disabled(file, "a", false).unwrap();
    assert_eq!(enabled, "models:\n  \"a\":\n    cmd: x\n");
    assert_eq!(
        set_disabled(file, "a", true).unwrap(),
        "models:\n  \"a\":\n    disabled: true\n    disabled: false\n    cmd: x\n"
    );
}

#[test]
fn an_empty_line_can_become_the_last_ending() {
    let file = "models:\n  a:\n    cmd: run -m /p\n\n    disabled: true";
    let enabled = set_disabled(file, "a", false).unwrap();
    assert_eq!(enabled, "models:\n  a:\n    cmd: run -m /p\n");
    assert_eq!(set_disabled(&enabled, "a", false).unwrap(), enabled);
    assert_eq!(
        parse_entries(&enabled)[0].model_path,
        parse_entries(file)[0].model_path
    );
}

#[test]
fn the_model_path_stands_in_the_command() {
    let file = concat_lines(&[
        "models:",
        "  a:",
        "    description: try -m /no",
        "    cmd: |",
        "      # -m /comment",
        "      run",
        "",
        "      --model /yes -m /other",
        "    note: -m /late",
        "  b:",
        "    description: -m /no",
        "  c:",
        "    cmd: run -m /line",
    ]);
    let paths: Vec<Option<String>> = parse_entries(&file)
        .into_iter()
        .map(|entry| entry.model_path)
        .collect();
    assert_eq!(
        paths,
        vec![Some("/yes".to_owned()), None, Some("/line".to_owned())]
    );
}

fn concat_lines(lines: &[&str]) -> String {
    lines.iter().map(|line| format!("{line}\n")).collect()
}

#[test]
fn sizes_that_do_not_add_up_are_noticed() {
    let dir = [
        sibling("m-1-of-2.gguf", Some(u64::MAX)),
        sibling("m-2-of-2.gguf", Some(1)),
        sibling("n-2-of-2.gguf", Some(1)),
    ];
    assert!(!shard_sizes_fit("m-1-of-2.gguf", &dir));
    assert!(shard_sizes_fit("n-1-of-2.gguf", &dir));
    assert!(shard_sizes_fit("m-1-of-1.gguf", &dir));
    assert!(shard_sizes_fit("m.gguf", &dir));
    assert_eq!(disk_size("n-1-of-2.gguf", &dir, None), Some(1));
}

#[test]
fn entries_are_found_by_their_lines() {
    let lines: Vec<&str> = SAMPLE.lines().collect();
    assert_eq!(entry_span(&lines, "alpha"), Some((4, 9)));
    assert_eq!(entry_span(&lines, "beta-shard"), Some((9, 16)));
    assert_eq!(entry_span(&lines, "preload"), None);
    assert_eq!(entry_span(&[], "alpha"), None);
}

#[test]
fn keys_must_stand_alone() {
    let file = "models:\n  one two:\n  \"x\": 1\n   deep:\n  ok :  \n    -m: -m --model /p\n  last:";
    let entries = parse_entries(file);
    let ids: Vec<&str> = entries.iter().map(|entry| entry.id.as_str()).collect();
    assert_eq!(ids, vec!["ok", "last"]);
    assert_eq!(entries[0].model_path, None);
    let file = "models:\n  a:\n    # -m /no\n    cmd: run --model /yes -m /other\n";
    assert_eq!(parse_entries(file)[0].model_path.as_deref(), Some("/yes"));
}

#[test]
fn models_without_an_entry_stay() {
    let model = |id: &str| SwapModel {
        id: id.into(),
        state: "s".into(),
        name: "n".into(),
        description: "d".into(),
        created: Some(3),
        disabled: true,
        size_bytes: Some(1),
    };
    let mut models = vec![model("other"), model("beta-shard")];
    merge_into(&mut models, SAMPLE, &[Some(8), None]);
    assert_eq!(models[0], model("other"));
    assert!(!models[1].disabled);
    assert_eq!(models[1].size_bytes, None);
    assert_eq!(models[1].created, Some(3));
}

#[test]
fn messages_take_the_quoted_id() {
    assert_eq!(
        not_found_message("<id>"),
        "model <id> not found in llama-swap.yaml"
    );
    assert_eq!(no_block_message("<id>"), "entry <id> has no cmd block");
}

#[test]
fn comments_open_no_entry_and_end_no_section() {
    let file = "models:\n#a:\n #b:\n  #c:\n   #d:\n  \t#e:\n\t#f:\n  \tdeep:\n  g:\nh:\n  i:\n";
    let ids: Vec<String> = parse_entries(file).into_iter().map(|entry| entry.id).collect();
    assert_eq!(ids, vec!["g".to_owned()]);
}

#[test]
fn snapshots_take_the_first_free_name() {
    let mut taken: Vec<String> = Vec::new();
    let first = free_snapshot_name("a.yaml", 0, &taken);
    assert_eq!(first, "a.yaml.bak-19700101-000000");
    taken.push("a.yaml.bak-19700101-000000-2".to_owned());
    assert_eq!(free_snapshot_name("a.yaml", 0, &taken), first);
    taken.push(first.clone());
    assert_eq!(free_snapshot_name("a.yaml", 0, &taken), format!("{first}-1"));
    taken.push(format!("{first}-1"));
    assert_eq!(free_snapshot_name("a.yaml", 0, &taken), format!("{first}-3"));
    assert_eq!(
        free_snapshot_name("a.yaml", 1, &taken),
        snapshot_name("a.yaml", 1, 0)
    );
}
