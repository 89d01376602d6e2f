use roflux::cli::located;
use roflux::compile::types::{relaxed, settings_for, Settings};
use roflux::json::{decode_json, json_eq, map_eq, parse_json, parse_toml, Json};
use roflux::project::meta::parse;
use roflux::sync::watch::{first_stage, next_stage, Plan, Stage};

fn json(text: &str) -> Json {
    parse_json(text).expect("test JSON")
}

#[test]
fn numbers_compare_by_value() {
    assert!(json_eq(&Json::Number("0.0".into()), &Json::Number("-0.0".into())));
    assert!(json_eq(&Json::Number("2".into()), &Json::Number("2".into())));
    assert!(!json_eq(&Json::Number("1".into()), &Json::Number("1.0".into())));
    assert!(!json_eq(&Json::Number("0".into()), &Json::Number("0.0".into())));
    let a = json(r#"{"x": [0.0, {"y": -0.0}]}"#);
    let b = json(r#"{"x": [-0.0, {"y": 0.0}]}"#);
    assert!(json_eq(&a, &b));
    assert!(map_eq(a.as_object().unwrap(), b.as_object().unwrap()));
    assert!(!json_eq(&a, &json(r#"{"x": [0.0, {"y": 1}]}"#)));
}

#[test]
fn json_text_decodes_or_says_why() {
    let value = decode_json(r#"{"a": [1, 2.5, "t"], "b": null}"#).expect("decodes");
    assert!(json_eq(&value, &json(r#"{"b": null, "a": [1, 2.5, "t"]}"#)));
    assert_eq!(decode_json("{").err().as_deref(), Some("EOF while parsing an object at line 1 column 1"));
    assert!(decode_json("[1,]").is_err());
}

#[test]
fn toml_text_reads_as_json() {
    let value = parse_toml("a = 1\nname = \"x\"\n[table]\nflag = true\nlist = [1, 2]\n").expect("parses");
    assert!(json_eq(&value, &json(r#"{"a": 1, "name": "x", "table": {"flag": true, "list": [1, 2]}}"#)));
    let error = parse_toml("a = ").err().expect("fails");
    assert!(!error.is_empty());
}

#[test]
fn a_project_argument_needs_its_folder_and_manifest() {
    assert_eq!(located("game", "game/default.project.json", true, true), Ok(()));
    assert_eq!(
        located("game", "game/default.project.json", false, false).err().as_deref(),
        Some("there is no folder \"game\"")
    );
    assert_eq!(
        located("game", "game/default.project.json", true, false).err().as_deref(),
        Some("there is no game/default.project.json, run \"roflux init\" to make one")
    );
}

#[test]
fn strict_json_comes_back_from_relaxed_unchanged() {
    let strict = "{\n  \"a\": [1, 2],\n  \"b\": \"// not a comment, ]\"\n}";
    assert_eq!(relaxed(strict), strict);
    assert_eq!(relaxed("{\"a\": 1, // note\n}"), "{\"a\": 1 \n}");
}

#[test]
fn settings_settle_after_one_write() {
    let first = match settings_for(Some("{\"editor.tabSize\": 4}"), "types.d.luau") {
        Settings::Write(m) => m,
        _ => panic!("expected a write"),
    };
    assert_eq!(first.len(), 5);
    let written = "{\"editor.tabSize\": 4, \"luau-lsp.platform.type\": \"roblox\", \
        \"luau-lsp.sourcemap.autogenerate\": false, \"luau-lsp.sourcemap.enabled\": true, \
        \"luau-lsp.types.definitionFiles\": {\"RoFlux\": \"types.d.luau\"}}";
    assert!(map_eq(&first, json(written).as_object().unwrap()));
    assert!(matches!(settings_for(Some(written), "types.d.luau"), Settings::Unchanged));
    let zero = written.replace("4,", "0.0,");
    assert!(matches!(settings_for(Some(&zero), "types.d.luau"), Settings::Unchanged));
}

#[test]
fn plain_keys_become_properties_or_children() {
    let meta = parse(&json(
        r#"{"Size": 3, "Child": {"$ClassName": "Part"}, "Typed": {"$Type": "X", "v": 1},
            "$Extra": {"$ClassName": "Model"}, "$Nothing": 5}"#,
    ));
    assert!(meta.properties.contains_key("Size"));
    assert!(meta.properties.contains_key("Typed"));
    assert!(!meta.properties.contains_key("Child"));
    let names: Vec<&str> = meta.children.iter().map(|(n, _)| n.as_str()).collect();
    assert!(names.contains(&"Child"));
    assert!(names.contains(&"Extra"));
    assert!(!names.contains(&"Nothing"));
    assert_eq!(names.len(), 2);
}

#[test]
fn values_are_written_as_json_and_toml() {
    let value = json(r#"{"b": [1, 2.5], "a": "x"}"#);
    assert_eq!(roflux::json::encode_json(&value, false).as_deref(), Ok(r#"{"a":"x","b":[1,2.5]}"#));
    assert_eq!(
        roflux::json::encode_json(&value, true).as_deref(),
        Ok("{\n  \"a\": \"x\",\n  \"b\": [\n    1,\n    2.5\n  ]\n}")
    );
    assert_eq!(roflux::json::encode_toml(&value).as_deref(), Ok("a = \"x\"\nb = [1, 2.5]\n"));
    assert!(roflux::json::encode_toml(&json("[1]")).is_err());
}

#[test]
fn applying_a_batch_goes_through_its_stages() {
    let planned = Plan { reload_hooks: false, reload_config: true, notices: Vec::new() };
    let first = first_stage(&planned);
    assert_eq!(first, Stage::ReloadConfig);
    assert_eq!(next_stage(first, &planned, Ok(())), Ok(Stage::Notify));
    assert_eq!(next_stage(Stage::Notify, &planned, Ok(())), Ok(Stage::Rebuild));
    assert_eq!(next_stage(Stage::Rebuild, &planned, Ok(())), Ok(Stage::Done));
    assert_eq!(
        next_stage(Stage::ReloadConfig, &planned, Err("bad".into())).err().as_deref(),
        Some("project reload failed: bad")
    );
    assert_eq!(next_stage(Stage::Rebuild, &planned, Err("x".into())).err().as_deref(), Some("rebuild failed: x"));
    let hooks = Plan { reload_hooks: true, reload_config: false, notices: Vec::new() };
    assert_eq!(first_stage(&hooks), Stage::ReloadHooks);
    assert_eq!(next_stage(Stage::ReloadHooks, &hooks, Ok(())), Ok(Stage::Notify));
}

#[test]
fn quoted_text_reads_back() {
    assert_eq!(roflux::literal::quote("a\"b\\c\nd\u{1}e"), "\"a\\\"b\\\\c\\nd\\1e\"");
    assert_eq!(roflux::literal::quote(""), "\"\"");
    assert_eq!(roflux::literal::quote("\u{1f}x"), "\"\\31x\"");
}
