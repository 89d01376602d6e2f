use roflux::cli::{candidate, locate, manifest_body};
use roflux::compile::sourcemap::build;
use roflux::compile::stats;
use roflux::compile::types::{generate, relaxed, settings_for, Settings, DEFINITIONS};
use roflux::hooks::data::{base64_decode, base64_encode, hash, hex, sorted};
use roflux::hooks::files::resolve;
use roflux::hooks::modules::{candidates, folder, join};
use roflux::hooks::{single, source_module, transpiled, Setup};
use roflux::ir::{reindex_root, Node, Tree};
use roflux::json::{json_eq, parse_json, Json};
use roflux::literal::{emit, identifier, module, quote};
use roflux::log::{detail, fail, good, hook, info, quiet, set_quiet, sync, warn, Log};

#[test]
fn project_names_become_manifests() {
    assert_eq!(locate("game", false), (".".to_string(), "game.project.json".to_string()));
    assert_eq!(locate("default", false), (".".to_string(), "default.project.json".to_string()));
    assert_eq!(locate("places/lobby.project.json", false), ("places".to_string(), "lobby.project.json".to_string()));
    assert_eq!(locate("MyGame", true), ("MyGame".to_string(), "default.project.json".to_string()));
    assert_eq!(candidate("MyGame/", true), "MyGame/default.project.json");
    assert_eq!(candidate("/abs", false), "/abs.project.json");
    assert_eq!(locate("/x.project.json", false), ("/".to_string(), "x.project.json".to_string()));
}

#[test]
fn init_writes_a_manifest() {
    assert_eq!(
        manifest_body("MyGame"),
        "{\n    \"ProjectID\": \"MyGame\",\n    \"Default\": \"ReplicatedStorage\"\n}\n"
    );
}

#[test]
fn log_lines() {
    let mut log = Log::new(false);
    assert_eq!(info(&log, "hello").as_deref(), Some("   info hello"));
    assert_eq!(good(&log, "x").as_deref(), Some("     ok x"));
    assert_eq!(warn(&log, "x").as_deref(), Some("   warn x"));
    assert_eq!(fail(&log, "x").as_deref(), Some("  error x"));
    assert_eq!(hook(&log, "x").as_deref(), Some("   hook x"));
    assert_eq!(sync(&log, "x").as_deref(), Some("   sync x"));
    assert_eq!(detail(&log, "x").as_deref(), Some("        x"));
    set_quiet(&mut log, true);
    assert!(quiet(&log));
    assert!(info(&log, "hello").is_none());
    let colored = Log::new(true);
    assert_eq!(info(&colored, "hi").as_deref(), Some("\x1b[36m   info\x1b[0m hi"));
}

#[test]
fn luau_literals() {
    assert_eq!(quote("a\"b\\c\nd\te\r\u{1}"), "\"a\\\"b\\\\c\\nd\\te\\r\\1\"");
    assert!(identifier("_name1"));
    assert!(!identifier("local"));
    assert!(!identifier("1x"));
    assert!(!identifier(""));
    let value = parse_json(r#"{"list":[],"map":{},"n":null,"ok":false,"x":1.5}"#).unwrap();
    assert_eq!(emit(&value), "{\n\tlist = {},\n\tmap = {},\n\tn = nil,\n\tok = false,\n\tx = 1.5,\n}");
    assert_eq!(module(&Json::Bool(true)), "return true\n");
}

#[test]
fn relaxed_settings_lose_comments_and_trailing_commas() {
    let raw = "{\n  // note\n  \"a\": \"x // y\", /* block */\n  \"b\": [1, 2,],\n}";
    assert_eq!(relaxed(raw), "{\n  \n  \"a\": \"x // y\", \n  \"b\": [1, 2]\n}");
    assert_eq!(relaxed("\"a,\" ,]"), "\"a,\" ]");
    assert_eq!(relaxed("\"\\\"//\""), "\"\\\"//\"");
}

#[test]
fn settings_point_at_the_definitions() {
    match settings_for(None, "types.d.luau") {
        Settings::Write(map) => {
            assert_eq!(
                map.keys(),
                vec![
                    "luau-lsp.platform.type".to_string(),
                    "luau-lsp.sourcemap.autogenerate".to_string(),
                    "luau-lsp.sourcemap.enabled".to_string(),
                    "luau-lsp.types.definitionFiles".to_string(),
                ]
            );
        }
        other => panic!("expected a write, got {other:?}"),
    }
    let done = "{\"luau-lsp.platform.type\":\"roblox\",\"luau-lsp.sourcemap.autogenerate\":false,\"luau-lsp.sourcemap.enabled\":true,\"luau-lsp.types.definitionFiles\":{\"RoFlux\":\"types.d.luau\"}}";
    assert!(matches!(settings_for(Some(done), "types.d.luau"), Settings::Unchanged));
    assert!(matches!(settings_for(Some("{ broken"), "types.d.luau"), Settings::Unreadable(e) if e.contains("line 1")));
    assert!(matches!(settings_for(Some("[1]"), "types.d.luau"), Settings::Unreadable(e) if e.starts_with("invalid type")));
    assert!(matches!(settings_for(Some("   "), "types.d.luau"), Settings::Write(_)));
    let generated = generate(DEFINITIONS, Some(done));
    assert!(!generated.write_definitions);
    assert!(matches!(generated.settings, Settings::Unchanged));
    assert!(generate("", None).write_definitions);
}

#[test]
fn hashes_and_base64() {
    assert_eq!(hex(&[0, 15, 16, 255]), "000f10ff");
    assert_eq!(
        hash(b"abc", None).unwrap(),
        "ba7816bf8f01cfea414140de5dae2223b00361a396177a9cb410ff61f20015ad"
    );
    assert_eq!(hash(b"", Some("SHA256")).unwrap(), "e3b0c44298fc1c149afbf4c8996fb92427ae41e4649b934ca495991b7852b855");
    assert_eq!(hash(b"x", Some("md5")).err().as_deref(), Some("unknown hash \"md5\", only sha256 is supported"));
    assert_eq!(base64_encode(b"hello"), "aGVsbG8=");
    assert_eq!(base64_decode("  aGVsbG8=\n").unwrap(), b"hello".to_vec());
    assert!(base64_decode("%%%").err().unwrap().starts_with("not valid base64: "));
    let value = parse_json(r#"{"b":1,"a":[{"d":2,"c":3}]}"#).unwrap();
    let copy = value.clone();
    assert!(json_eq(&sorted(value), &copy));
}

#[test]
fn module_paths() {
    assert_eq!(folder("scripts/lib/util.luau"), "scripts/lib");
    assert_eq!(folder("top.luau"), "");
    assert_eq!(join("scripts/lib", "../shared/x").as_deref(), Some("scripts/shared/x"));
    assert_eq!(join("", "./a/./b/").as_deref(), Some("a/b"));
    assert_eq!(join("a", "../../x"), None);
    assert_eq!(join("a", "./c:d"), None);
    assert_eq!(
        candidates("lib/util.LUAU"),
        vec![
            "lib/util.LUAU".to_string(),
            "lib/util.LUAU.luau".to_string(),
            "lib/util.LUAU.lua".to_string(),
            "lib/util.LUAU/init.luau".to_string(),
            "lib/util.LUAU/init.lua".to_string(),
        ]
    );
    assert_eq!(candidates("")[2], "init.luau");
}

#[test]
fn hook_paths_stay_inside() {
    assert_eq!(resolve("a/./b\\c"), Some(vec!["a".to_string(), "b".to_string(), "c".to_string()]));
    assert_eq!(resolve("/etc/passwd"), None);
    assert_eq!(resolve("a/../../x"), None);
    assert_eq!(resolve(""), Some(Vec::new()));
}

#[test]
fn transpiled_declarations() {
    let value = parse_json(r#"{"$ClassName":"Part","$Parent":"Workspace","Inner":{"$ClassName":"Decal"},"Gone":{"$Ignore":true}}"#).unwrap();
    let loaded = single(&value);
    assert_eq!(loaded.class_name.as_deref(), Some("Part"));
    assert_eq!(loaded.parent.as_deref(), Some("Workspace"));
    assert_eq!(loaded.children.len(), 1);
    assert_eq!(loaded.children[0].class_name, "Decal");
    let skipped = single(&parse_json(r#"{"$Ignore":true}"#).unwrap());
    assert!(skipped.skip);
    assert_eq!(transpiled(&parse_json("[{},{}]").unwrap()).len(), 2);
    let script = source_module("return 1".into());
    assert_eq!(script.class_name.as_deref(), Some("ModuleScript"));
    let setup = Setup {
        root: "/p".into(),
        name: "P".into(),
        id: "P".into(),
        manifest: "default.project.json".into(),
        scripts: parse_json(r#"{"AllowExec":true}"#).unwrap(),
    };
    assert!(setup.allow_exec());
    let closed = Setup { scripts: Json::Null, ..setup };
    assert!(!closed.allow_exec());
}

#[test]
fn sourcemap_and_stats() {
    let mut tree = Tree::new("Game");
    let mut script = Node::new(String::new(), "Main".into(), "Script".into());
    script.file_paths.push("src/Main.server.luau".into());
    let mut folder_node = Node::new(String::new(), "Stuff".into(), "Folder".into());
    folder_node.children.push(script);
    tree.root.children.push(folder_node);
    reindex_root(&mut tree.root);
    let map = build(&tree);
    assert_eq!(map.name, "Game");
    assert_eq!(map.class_name, "DataModel");
    assert_eq!(map.file_paths, vec!["default.project.json".to_string()]);
    assert_eq!(map.children[0].children[0].file_paths, vec!["src/Main.server.luau".to_string()]);
    assert_eq!(stats(&tree), "2 instances, 1 scripts");
}

#[test]
fn hook_file_context() {
    let context = roflux::hooks::context_of("src/ui/Button.story.LUAU");
    assert_eq!(context.path, "src/ui/Button.story.LUAU");
    assert_eq!(context.name, "Button.story.LUAU");
    assert_eq!(context.stem, "Button");
    assert_eq!(context.folder, "src/ui");
    assert_eq!(context.extension, "luau");
    let bare = roflux::hooks::context_of("README");
    assert_eq!(bare.folder, "");
    assert_eq!(bare.extension, "");
}

#[test]
fn globs_filter_paths() {
    let paths = vec!["src/a.luau".to_string(), "src/deep/b.luau".to_string(), "c.txt".to_string()];
    assert_eq!(roflux::hooks::files::glob("src/*.luau", &paths).unwrap(), vec!["src/a.luau".to_string()]);
    assert_eq!(roflux::hooks::files::glob("**/*.luau", &paths).unwrap().len(), 2);
    assert_eq!(roflux::hooks::files::glob("a[", &paths).err().as_deref(), Some("bad glob \"a[\": error parsing glob 'a[': unclosed character class; missing ']'"));
}

#[test]
fn map_insert_then_get() {
    let mut map = roflux::json::JsonMap::new();
    map.insert("b".into(), Json::Bool(true));
    map.insert("a".into(), Json::Bool(false));
    map.insert("b".into(), Json::Null);
    assert_eq!(map.keys(), vec!["a".to_string(), "b".to_string()]);
    assert!(map.get("b").unwrap().is_null());
    assert_eq!(map.get("a").unwrap().as_bool(), Some(false));
    assert!(map.get("c").is_none());
}

#[test]
fn mount_targets_in_order() {
    let manifest = parse_json(r#"{"A":{"$Path":"a","X":{"$Path":"x"},"Y":{}},"B":{"$Path":"b"}}"#).unwrap();
    let config = roflux::project::scan::config_from("P", Some(&manifest));
    assert_eq!(
        roflux::project::scan::mount_targets(&config),
        vec!["x".to_string(), "a".to_string(), "b".to_string()]
    );
}

#[test]
fn split_names_at_the_last_slash() {
    assert_eq!(roflux::cli::locate_name("a/b/c.json"), ("a/b".to_string(), "c.json".to_string()));
    assert_eq!(roflux::cli::locate_name("c.json"), (".".to_string(), "c.json".to_string()));
}
