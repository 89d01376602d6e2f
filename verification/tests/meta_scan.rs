use roflux::ir::{Node, Ownership, Tree};
use roflux::json::{json_eq, parse_json, Json, JsonMap};
use roflux::project::meta::{decode, is_declaration, parse, parse_many, typed};
use roflux::project::scan::{
    asset_node, attach, blank, build_folder, build_with, config_from, config_warnings, container, fill, merge, name_order,
    names, place, skipped, stamp, wanted, FileEntry, Folder, Mount,
};
use roflux::project::{Loaded, Passthrough};

fn json(text: &str) -> Json {
    parse_json(text).expect("test JSON")
}

fn file(name: &str, text: &str) -> FileEntry {
    FileEntry { name: name.to_string(), text: Ok(text.to_string()) }
}

fn folder(name: &str, folders: Vec<Folder>, files: Vec<FileEntry>) -> Folder {
    Folder { name: name.to_string(), folders, files }
}

fn text_of(node: &Node, key: &str) -> Option<String> {
    node.properties.get(key).and_then(|v| v.as_str()).cloned()
}

fn names_of(node: &Node) -> Vec<String> {
    node.children.iter().map(|c| c.name.clone()).collect()
}

#[test]
fn parse_reads_directives_children_and_properties() {
    let value = json(
        r#"{"$ClassName":"Part","$Properties":{"Anchored":true},"Size":[1,2,3],"Child":{"$ClassName":"Folder"},"$Weird":{"$ClassName":"Model"},"$Tags":["a",1,"b"],"$Ignore":false,"Color":{"$Type":"Color3","value":[1,0,0]}}"#,
    );
    let meta = parse(&value);
    assert_eq!(meta.class_name.as_deref(), Some("Part"));
    assert!(!meta.ignore);
    assert_eq!(meta.tags, vec!["a".to_string(), "b".to_string()]);
    assert_eq!(meta.properties.keys(), vec!["Anchored".to_string(), "Color".to_string(), "Size".to_string()]);
    let children: Vec<&str> = meta.children.iter().map(|(n, _)| n.as_str()).collect();
    assert_eq!(children, vec!["Weird", "Child"]);
    assert_eq!(meta.children[0].1.class_name.as_deref(), Some("Model"));
    assert_eq!(meta.children[1].1.class_name.as_deref(), Some("Folder"));
}

#[test]
fn parse_of_a_non_object_declares_nothing() {
    let meta = parse(&json("[1,2]"));
    assert!(meta.class_name.is_none() && meta.children.is_empty() && meta.properties.is_empty());
}

#[test]
fn parse_many_reads_each_item() {
    let many = parse_many(&json(r#"[{"$ClassName":"A"},{"$ClassName":"B"}]"#));
    assert_eq!(many.len(), 2);
    assert_eq!(many[1].class_name.as_deref(), Some("B"));
    assert_eq!(parse_many(&json(r#"{"$ClassName":"C"}"#)).len(), 1);
}

#[test]
fn declarations_and_typed_values() {
    assert!(is_declaration(&json(r#"{"$ClassName":"Part"}"#)));
    assert!(is_declaration(&json(r#"{"x":{"y":{"$Path":"src"}}}"#)));
    assert!(!is_declaration(&json(r#"{"$Type":"Vector3","$ClassName":"x"}"#)));
    assert!(!is_declaration(&json(r#"{"x":1}"#)));
    assert!(typed(&json(r#"{"$Type":"Vector3"}"#)));
    assert!(!typed(&json("3")));
}

#[test]
fn decode_strips_a_byte_order_mark_and_reads_blank_as_empty() {
    let blank_value = decode("  \n ").expect("blank is an empty object");
    assert!(blank_value.as_object().map(|m| m.is_empty()).unwrap_or(false));
    let marked = decode("\u{feff}{\"a\":1}").expect("marked JSON");
    assert!(marked.get("a").is_some());
    assert!(decode("{not json").is_none());
}

#[test]
fn config_defaults_without_a_manifest() {
    let config = config_from("MyGame", None);
    assert_eq!(config.id, "MyGame");
    assert_eq!(config.name, "MyGame");
    assert!(config.default_parent.is_none());
    assert!(config.services.is_empty());
    assert!(config.scripts.is_null());
}

#[test]
fn config_reads_settings_and_services() {
    let manifest = json(
        r#"{"ProjectID":"abc","Name":"Game","$Default":"ReplicatedStorage","Include":["/Shared/","", "Lib"],"Exclude":["Old"],"Scripts":{"AllowExec":true},"Workspace":{"$Properties":{"Gravity":100}},"Lighting":5,"$Other":{}}"#,
    );
    let config = config_from("Folder", Some(&manifest));
    assert_eq!(config.id, "abc");
    assert_eq!(config.name, "Game");
    assert_eq!(config.default_parent.as_deref(), Some("ReplicatedStorage"));
    assert_eq!(config.included, vec!["Shared".to_string(), "Lib".to_string()]);
    assert_eq!(config.excluded, vec!["Old".to_string()]);
    assert!(config.scripts.is_object());
    assert_eq!(config.services.len(), 1);
    assert_eq!(config.services[0].0, "Workspace");
}

#[test]
fn names_falls_back_to_the_dollar_key() {
    let manifest = json(r#"{"$Include":["a","/b/"]}"#);
    assert_eq!(names(manifest.as_object().unwrap(), "Include"), vec!["a".to_string(), "b".to_string()]);
    let shadowed = json(r#"{"Include":"a","$Include":["b"]}"#);
    assert!(names(shadowed.as_object().unwrap(), "Include").is_empty());
}

#[test]
fn wanted_folders() {
    let none: Vec<String> = Vec::new();
    let only = vec!["A".to_string()];
    assert!(wanted(&none, &none, "X"));
    assert!(wanted(&only, &none, "A"));
    assert!(!wanted(&only, &none, "B"));
    assert!(!wanted(&none, &only, "A"));
}

#[test]
fn containers_on_the_way() {
    assert_eq!(container(0, "Workspace"), "Workspace");
    assert_eq!(container(1, "StarterPlayerScripts"), "StarterPlayerScripts");
    assert_eq!(container(2, "Stuff"), "Folder");
}

#[test]
fn skipped_entries() {
    assert!(skipped(".git", false));
    assert!(skipped("node_modules", false));
    assert!(skipped("Cargo.toml", true));
    assert!(!skipped("Cargo.toml", false));
    assert!(!skipped("src", true));
}

#[test]
fn attach_merges_same_names_and_adds_new_ones() {
    let mut slot = Node::new(String::new(), "Slot".into(), "Folder".into());
    let mut first = Node::new(String::new(), "A".into(), "Folder".into());
    first.tags.push("x".into());
    attach(&mut slot, first);
    let mut second = Node::new(String::new(), "A".into(), "Part".into());
    second.tags.push("x".into());
    second.tags.push("y".into());
    second.properties.insert("Size".into(), Json::Number("2".into()));
    attach(&mut slot, second);
    attach(&mut slot, Node::new(String::new(), "B".into(), "Folder".into()));
    assert_eq!(names_of(&slot), vec!["A".to_string(), "B".to_string()]);
    assert_eq!(slot.children[0].class_name, "Part");
    assert_eq!(slot.children[0].tags, vec!["x".to_string(), "y".to_string()]);
    assert!(slot.children[0].properties.contains_key("Size"));
}

#[test]
fn merge_keeps_the_class_for_a_folder_and_takes_managed() {
    let mut target = Node::passthrough(String::new(), "T".into(), "Model".into());
    let incoming = Node::new(String::new(), "T".into(), "Folder".into());
    merge(&mut target, incoming);
    assert_eq!(target.class_name, "Model");
    assert_eq!(target.ownership, Ownership::Managed);
}

#[test]
fn fill_skips_the_source() {
    let mut slot = Node::passthrough(String::new(), "S".into(), "ServerScriptService".into());
    let mut contents = Node::new(String::new(), "S".into(), "ModuleScript".into());
    contents.properties.insert("Source".into(), Json::Text("x".into()));
    contents.properties.insert("Other".into(), Json::Bool(true));
    contents.children.push(Node::new(String::new(), "C".into(), "Folder".into()));
    fill(&mut slot, contents);
    assert_eq!(slot.class_name, "ServerScriptService");
    assert!(!slot.properties.contains_key("Source"));
    assert!(slot.properties.contains_key("Other"));
    assert_eq!(names_of(&slot), vec!["C".to_string()]);
}

#[test]
fn stamp_records_a_file_once_everywhere() {
    let mut node = Node::new(String::new(), "N".into(), "Folder".into());
    node.children.push(Node::new(String::new(), "C".into(), "Folder".into()));
    stamp(&mut node, "a.txt");
    stamp(&mut node, "a.txt");
    assert_eq!(node.file_paths, vec!["a.txt".to_string()]);
    assert_eq!(node.children[0].file_paths, vec!["a.txt".to_string()]);
}

#[test]
fn place_makes_containers() {
    let mut tree = Tree::new("Game");
    place(&mut tree, "ReplicatedStorage/Deep", Node::new(String::new(), "X".into(), "Folder".into()));
    let storage = &tree.root.children[0];
    assert_eq!(storage.name, "ReplicatedStorage");
    assert_eq!(storage.class_name, "ReplicatedStorage");
    assert_eq!(storage.ownership, Ownership::Passthrough);
    assert_eq!(storage.children[0].class_name, "Folder");
    assert_eq!(storage.children[0].children[0].name, "X");
}

#[test]
fn blank_declarations() {
    assert!(blank(&parse(&json("{}"))));
    assert!(!blank(&parse(&json(r#"{"$ClassName":"Part"}"#))));
}

#[test]
fn asset_nodes() {
    let text = asset_node("Notes", "txt", "Notes.txt", "hello").unwrap();
    assert_eq!(text.class_name, "StringValue");
    assert_eq!(text_of(&text, "Value").as_deref(), Some("hello"));
    assert_eq!(text.file_paths, vec!["Notes.txt".to_string()]);
    let data = asset_node("Data", "json", "Data.json", r#"{"a":[1,true],"b c":"x"}"#).unwrap();
    assert_eq!(data.class_name, "ModuleScript");
    assert_eq!(
        text_of(&data, "Source").as_deref(),
        Some("return {\n\ta = {\n\t\t1,\n\t\ttrue,\n\t},\n\t[\"b c\"] = \"x\",\n}\n")
    );
    let broken = asset_node("Bad", "json", "Bad.json", "{oops").unwrap();
    assert_eq!(text_of(&broken, "Source").as_deref(), Some("return nil\n"));
    assert!(asset_node("Pic", "png", "Pic.png", "").is_none());
}

#[test]
fn name_order_sorts_names() {
    let names = vec!["b".to_string(), "a".to_string(), "c".to_string()];
    assert_eq!(name_order(&names), vec![1, 0, 2]);
}

fn project() -> Folder {
    folder(
        "MyGame",
        vec![
            folder(
                "Shared",
                vec![],
                vec![
                    file("init.meta.json", r#"{"$Parent": "ReplicatedStorage"}"#),
                    file("Greeting.luau", "return 1"),
                    file("Main.server.luau", "print(1)"),
                    file("Main.meta.json", r#"{"$Properties": {"Disabled": true}}"#),
                    file("Data.json", "[1]"),
                ],
            ),
            folder(
                "Lib",
                vec![],
                vec![file("init.meta.json", "{}"), file("init.luau", "return {}")],
            ),
            folder("NoMeta", vec![], vec![file("X.luau", "")]),
            folder(".git", vec![], vec![file("init.meta.json", "{}")]),
        ],
        vec![file("default.project.json", "{}"), file("Loose.luau", "return 2")],
    )
}

#[test]
fn build_places_folders_under_their_parent_or_the_default() {
    let manifest = json(r#"{"Default":"ServerStorage"}"#);
    let config = config_from("MyGame", Some(&manifest));
    let mounts: Vec<(String, Mount)> = Vec::new();
    let (tree, files, warned) = build_with(&config, &project(), &mounts, &Passthrough).expect("builds");
    assert_eq!(tree.root.class_name, "DataModel");
    assert_eq!(tree.root.name, "MyGame");
    assert_eq!(names_of(&tree.root), vec!["ReplicatedStorage".to_string(), "ServerStorage".to_string()]);
    let shared = &tree.root.children[0].children[0];
    assert_eq!(shared.name, "Shared");
    assert_eq!(shared.class_name, "Folder");
    assert_eq!(shared.id, "ReplicatedStorage/Shared");
    assert_eq!(names_of(shared), vec!["Data".to_string(), "Greeting".to_string(), "Main".to_string()]);
    let greeting = &shared.children[1];
    assert_eq!(greeting.class_name, "ModuleScript");
    assert_eq!(text_of(greeting, "Source").as_deref(), Some("return 1"));
    assert_eq!(greeting.id, "ReplicatedStorage/Shared/Greeting");
    let main = &shared.children[2];
    assert_eq!(main.class_name, "Script");
    assert!(main.properties.contains_key("Disabled"));
    let lib = &tree.root.children[1].children[0];
    assert_eq!(lib.name, "Lib");
    assert_eq!(lib.class_name, "ModuleScript");
    assert_eq!(text_of(lib, "Source").as_deref(), Some("return {}"));
    assert_eq!(lib.file_paths, vec!["Lib/init.luau".to_string(), "Lib/init.meta.json".to_string()]);
    assert!(files.contains(&"Shared/Greeting.luau".to_string()));
    assert!(files.contains(&"Shared/Main.meta.json".to_string()));
    assert!(!files.iter().any(|f| f.starts_with("NoMeta")));
    assert!(warned.is_empty());
}

#[test]
fn build_reports_unreadable_scripts() {
    let root = folder(
        "P",
        vec![folder(
            "S",
            vec![],
            vec![file("init.meta.json", r#"{"$Parent":"Workspace"}"#), FileEntry { name: "A.luau".into(), text: Err("denied".into()) }],
        )],
        vec![],
    );
    let config = config_from("P", None);
    let mounts: Vec<(String, Mount)> = Vec::new();
    let error = build_with(&config, &root, &mounts, &Passthrough).err().expect("fails");
    assert_eq!(error, "S/A.luau: denied");
}

#[test]
fn services_take_declared_children_and_mounted_folders() {
    let manifest = json(
        r#"{"ServerScriptService":{"$Path":"server","Extra":{"$ClassName":"Configuration"}}}"#,
    );
    let config = config_from("P", Some(&manifest));
    let mounted = folder("server", vec![], vec![file("Boot.server.luau", "boot()")]);
    let mounts = vec![(
        "server".to_string(),
        Mount::Dir { folder: mounted, base: "server".into(), alias: Some("server".into()) },
    )];
    let root = folder("P", vec![folder("server", vec![], vec![file("init.meta.json", "{}")])], vec![]);
    let (tree, _, _) = build_with(&config, &root, &mounts, &Passthrough).expect("builds");
    let service = &tree.root.children[0];
    assert_eq!(service.name, "ServerScriptService");
    assert_eq!(names_of(service), vec!["Boot".to_string(), "Extra".to_string()]);
    assert_eq!(service.children[0].class_name, "Script");
    assert_eq!(service.children[0].file_paths, vec!["server/Boot.server.luau".to_string()]);
    assert_eq!(service.children[1].class_name, "Configuration");
    assert_eq!(tree.root.children.len(), 1);
}

#[test]
fn build_folder_makes_a_model_root() {
    let root = folder("Model", vec![], vec![file("init.server.luau", "run()"), file("Part.inst.json", r#"{"$ClassName":"Part"}"#)]);
    let (node, _) = build_folder(&root, &Passthrough, "Model").expect("builds");
    assert_eq!(node.class_name, "Script");
    assert_eq!(node.id, "Model");
    assert_eq!(node.children[0].class_name, "Part");
    assert_eq!(node.children[0].id, "Model/Part");
    let ignored = folder("/tmp/plugin/Gone", vec![], vec![file("init.meta.json", r#"{"$Ignore":true}"#)]);
    assert_eq!(
        build_folder(&ignored, &Passthrough, "Gone").err().as_deref(),
        Some("/tmp/plugin/Gone has nothing to build")
    );
}

#[test]
fn loaded_defaults() {
    let loaded = Loaded::default();
    assert!(!loaded.skip && loaded.children.is_empty());
    let mut map = JsonMap::new();
    map.insert("k".into(), Json::Null);
    assert!(json_eq(&Json::Object(map.clone()), &Json::Object(map)));
}

#[test]
fn nested_services_keep_their_path_and_declared_names() {
    let manifest = json(
        r#"{"ReplicatedStorage/Packages":{"Kit":{"$Name":"Toolkit"},"Gone":{"$Ignore":true}},"Lighting":{}}"#,
    );
    let config = config_from("P", Some(&manifest));
    let mounts: Vec<(String, Mount)> = Vec::new();
    let root = folder("P", vec![], vec![]);
    let (tree, _, _) = build_with(&config, &root, &mounts, &Passthrough).expect("builds");
    assert_eq!(names_of(&tree.root), vec!["Lighting".to_string(), "ReplicatedStorage".to_string()]);
    let storage = &tree.root.children[1];
    assert_eq!(names_of(storage), vec!["Packages".to_string()]);
    let packages = &storage.children[0];
    assert_eq!(packages.id, "ReplicatedStorage/Packages");
    assert_eq!(names_of(packages), vec!["Toolkit".to_string()]);
    assert_eq!(packages.children[0].id, "ReplicatedStorage/Packages/Toolkit");
}

#[test]
fn scanning_hands_back_warnings() {
    let root = folder(
        "P",
        vec![folder(
            "Loose",
            vec![],
            vec![
                file("init.meta.json", r#"{"$Bogus": 1, "$Extra": {"$ClassName": "Part"}}"#),
                file("Model.inst.json", r#"[{"$FromModel": ""}, 5]"#),
            ],
        )],
        vec![],
    );
    let config = config_from("P", None);
    let mounts: Vec<(String, Mount)> = Vec::new();
    let (tree, _, warned) = build_with(&config, &root, &mounts, &Passthrough).expect("builds");
    assert!(tree.root.children.is_empty());
    assert_eq!(
        warned,
        vec![
            "Loose/init.meta.json: unknown directive \"$Bogus\"".to_string(),
            "Loose/init.meta.json: \"$Extra\" is not a directive, reading it as the child \"Extra\"".to_string(),
            "Loose/Model.inst.json: expected an object".to_string(),
            "Loose/Model.inst.json: $FromModel needs a path".to_string(),
            "\"Loose\" has no $Parent and the project has no $Default, skipping it".to_string(),
        ]
    );
}

#[test]
fn manifest_services_warn_like_declarations() {
    let manifest = json(r#"{"Name":"P","Workspace":{"$Oops":true}}"#);
    assert_eq!(
        config_warnings(Some(&manifest), "default.project.json"),
        vec!["default.project.json: unknown directive \"$Oops\"".to_string()]
    );
}
