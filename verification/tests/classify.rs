use roflux::project::classify::{asset_class, classify, definition, extension, is_luau, Kind, Script};

#[test]
fn luau_files_are_module_scripts() {
    assert_eq!(classify("Greeting.luau"), (Kind::Script(Script::Module), "Greeting".to_string()));
    assert_eq!(classify("Greeting.lua"), (Kind::Script(Script::Module), "Greeting".to_string()));
}

#[test]
fn server_and_client_suffixes() {
    assert_eq!(classify("Main.server.luau"), (Kind::Script(Script::Server), "Main".to_string()));
    assert_eq!(classify("Input.client.lua"), (Kind::Script(Script::Client), "Input".to_string()));
    assert_eq!(Script::Server.class_name(), "Script");
    assert_eq!(Script::Client.class_name(), "LocalScript");
    assert_eq!(Script::Module.class_name(), "ModuleScript");
}

#[test]
fn init_files_make_the_folder_a_script() {
    assert_eq!(classify("init.luau"), (Kind::InitScript(Script::Module), String::new()));
    assert_eq!(classify("INIT.server.luau"), (Kind::InitScript(Script::Server), String::new()));
    assert_eq!(classify("init.meta.json"), (Kind::InitMeta, String::new()));
}

#[test]
fn stems_keep_their_case() {
    assert_eq!(classify("Big.SERVER.LUAU"), (Kind::Script(Script::Server), "Big".to_string()));
}

#[test]
fn ignored_files() {
    assert_eq!(classify("types.d.luau"), (Kind::Ignored, String::new()));
    assert_eq!(classify(".hidden"), (Kind::Ignored, String::new()));
    assert_eq!(classify("default.project.json"), (Kind::Ignored, String::new()));
}

#[test]
fn instance_sidecar_and_asset_files() {
    assert_eq!(classify("Parts.inst.json"), (Kind::Instance, "Parts".to_string()));
    assert_eq!(classify("Greeting.meta.json"), (Kind::Sidecar("Greeting".to_string()), "Greeting".to_string()));
    assert_eq!(classify("Notes.TXT"), (Kind::Asset("txt".to_string()), "Notes".to_string()));
    assert_eq!(classify("Makefile"), (Kind::Asset(String::new()), "Makefile".to_string()));
}

#[test]
fn extension_and_asset_classes() {
    assert_eq!(extension("a.b.JSON"), "json");
    assert_eq!(extension("none"), "");
    assert_eq!(asset_class("txt"), Some("StringValue"));
    assert_eq!(asset_class("yaml"), Some("StringValue"));
    assert_eq!(asset_class("json"), Some("ModuleScript"));
    assert_eq!(asset_class("png"), None);
}

#[test]
fn definitions_are_luau() {
    assert!(definition("x.d.luau"));
    assert!(is_luau("x.d.luau"));
    assert!(is_luau("x.lua"));
    assert!(!is_luau("x.luau.txt"));
    assert!(!definition("x.luau"));
}

#[test]
fn kind_does_not_depend_on_case() {
    let (kind, stem) = classify("MyModule.LUAU");
    assert_eq!((kind, stem.as_str()), (Kind::Script(Script::Module), "MyModule"));
    for name in ["MyModule.LUAU", "Big.Server.Lua", "Parts.INST.json", "Notes.TXT", "INIT.meta.JSON"] {
        let (kind, stem) = classify(name);
        assert!(name.starts_with(&stem));
        assert_eq!(classify(&name.to_ascii_lowercase()).0, kind);
    }
}
