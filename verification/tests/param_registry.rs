use l3ms::param_registry::{
    category_start, find_by_flag, presets, registry, ParamCategory, ParamKind, ParamValue,
    PRESET_COUNT, REGISTRY_LEN,
};

#[test]
fn registry_flags_are_unique_and_wellformed() {
    let mut seen = std::collections::HashSet::new();
    for def in registry() {
        assert!(
            def.flag.starts_with("--"),
            "{} must be a long flag",
            def.flag
        );
        assert!(seen.insert(def.flag), "duplicate flag {}", def.flag);
        for alias in def.aliases {
            assert!(alias.starts_with('-'), "alias {alias} malformed");
            assert!(seen.insert(alias), "duplicate alias {alias}");
        }
        assert!(!def.label.is_empty());
        assert!(!def.description.is_empty());
    }
}

#[test]
fn registry_covers_every_category() {
    for category in ParamCategory::all() {
        assert!(
            category_start(category).is_some(),
            "no flags for {}",
            category.title()
        );
    }
}

#[test]
fn find_by_flag_matches_aliases() {
    assert_eq!(find_by_flag("--ctx-size"), find_by_flag("-c"));
    assert_eq!(find_by_flag("--gpu-layers"), find_by_flag("-ngl"));
    assert!(find_by_flag("--nope").is_none());
}

#[test]
fn parse_value_respects_bounds_and_options() {
    let defs = registry();
    let ctx = find_by_flag("--ctx-size").unwrap();
    assert_eq!(
        defs[ctx].parse_value("65536"),
        Some(ParamValue::Integer(65_536))
    );
    assert_eq!(defs[ctx].parse_value("-5"), None);

    let fa = find_by_flag("--flash-attn").unwrap();
    assert_eq!(defs[fa].parse_value("on"), Some(ParamValue::On));
    assert_eq!(defs[fa].parse_value("auto"), Some(ParamValue::Unset));
    assert_eq!(defs[fa].parse_value("sure"), None);

    let temp = find_by_flag("--temp").unwrap();
    assert_eq!(
        defs[temp].parse_value("0.95"),
        Some(ParamValue::Text("0.95".into()))
    );

    let jinja = find_by_flag("--jinja").unwrap();
    assert_eq!(defs[jinja].parse_value("on"), None);
}

#[test]
fn presets_reference_known_flags() {
    for preset in presets() {
        for (flag, _) in preset.values {
            assert!(
                find_by_flag(flag).is_some(),
                "preset {} references unknown flag {}",
                preset.name,
                flag
            );
        }
    }
}

#[test]
fn tables_have_their_sizes() {
    assert_eq!(registry().len(), REGISTRY_LEN);
    assert_eq!(presets().len(), PRESET_COUNT);
    assert_eq!(ParamCategory::all().len(), 7);
}

#[test]
fn every_spelling_finds_its_own_flag() {
    for (index, def) in registry().iter().enumerate() {
        assert_eq!(find_by_flag(def.flag), Some(index));
        for alias in def.aliases {
            assert_eq!(find_by_flag(alias), Some(index));
        }
    }
    for managed in ["--port", "-m", "--model"] {
        assert_eq!(find_by_flag(managed), None);
    }
}

#[test]
fn categories_follow_each_other() {
    let starts: Vec<usize> = ParamCategory::all()
        .into_iter()
        .map(|category| category_start(category).unwrap())
        .collect();
    assert_eq!(starts, vec![0, 10, 22, 24, 30, 33, 38]);
    assert_eq!(ParamCategory::Gpu.title(), "GPU & offload");
}

#[test]
fn values_are_displayed_by_kind() {
    let defs = registry();
    let ctx = &defs[find_by_flag("--ctx-size").unwrap()];
    let fa = &defs[find_by_flag("--flash-attn").unwrap()];
    let jinja = &defs[find_by_flag("--jinja").unwrap()];
    let ctk = &defs[find_by_flag("--cache-type-k").unwrap()];
    assert_eq!(ParamValue::Unset.display(ctx), "·");
    assert_eq!(ParamValue::Unset.display(fa), "auto");
    assert_eq!(ParamValue::Unset.display(jinja), "off");
    assert_eq!(ParamValue::On.display(jinja), "ON");
    assert_eq!(ParamValue::Off.display(fa), "off");
    assert_eq!(ParamValue::Integer(-12).display(ctx), "-12");
    assert_eq!(ParamValue::Choice(3).display(ctk), "q8_0");
    assert_eq!(ParamValue::Choice(99).display(ctk), "·");
    assert_eq!(ParamValue::Choice(0).display(ctx), "·");
    assert_eq!(ParamValue::Text("x y".into()).display(ctx), "x y");
    assert!(!ParamValue::Unset.is_set());
    assert!(ParamValue::Off.is_set());
}

#[test]
fn kinds_decide_about_values_and_options() {
    let defs = registry();
    let ctx = &defs[find_by_flag("--ctx-size").unwrap()];
    let jinja = &defs[find_by_flag("--jinja").unwrap()];
    let ctk = &defs[find_by_flag("--cache-type-k").unwrap()];
    assert!(ctx.takes_value());
    assert!(!jinja.takes_value());
    assert!(ctx.kind_options().is_none());
    assert!(matches!(ctk.kind, ParamKind::Choice(_)));
    assert_eq!(ctk.kind_options().unwrap()[3], "q8_0");
    assert_eq!(ctk.parse_value("q8_0"), Some(ParamValue::Choice(3)));
    assert_eq!(ctk.parse_value("q9"), None);
    assert_eq!(ctx.parse_value("+7"), Some(ParamValue::Integer(7)));
    assert_eq!(ctx.parse_value("99999999999999999999"), None);
    assert_eq!(ctx.parse_value(""), None);
}
