use roflux::ir::{node_copy, reindex_root, Node, Ownership, Tree};
use roflux::json::{Json, JsonMap};
use roflux::patch::{diff, syncable, Op, Patch};

fn node(name: &str, class: &str) -> Node {
    Node::new(String::new(), name.to_string(), class.to_string())
}

fn tree(children: Vec<Node>) -> Tree {
    let mut t = Tree::new("Game");
    t.root.children = children;
    reindex_root(&mut t.root);
    t
}

fn copy(t: &Tree) -> Tree {
    Tree { root: node_copy(&t.root) }
}

fn sample() -> Tree {
    let mut folder = node("Shared", "Folder");
    let mut script = node("Greeting", "ModuleScript");
    script.properties.insert("Source".into(), Json::Text("return 1".into()));
    script.attributes.insert("Old".into(), Json::Bool(true));
    folder.children.push(script);
    let mut studio_only = node("Terrain", "Terrain");
    studio_only.ownership = Ownership::Reference;
    folder.children.push(studio_only);
    tree(vec![folder])
}

#[test]
fn a_tree_compared_with_itself_needs_nothing() {
    let before = sample();
    let after = copy(&before);
    let patch = diff(&before, &after);
    assert!(patch.is_empty());
    assert_eq!(patch.summary(), "+0 ~0 -0");
}

#[test]
fn added_updated_and_removed_nodes() {
    let before = sample();
    let mut after = copy(&before);
    {
        let shared = &mut after.root.children[0];
        let greeting = &mut shared.children[0];
        greeting.properties.insert("Source".into(), Json::Text("return 2".into()));
        greeting.attributes = JsonMap::new();
        greeting.attributes.insert("New".into(), Json::Number("3".into()));
        greeting.tags.push("tagged".into());
        let mut fresh = node("Extra", "Folder");
        fresh.children.push(node("Inner", "Part"));
        shared.children.push(fresh);
    }
    after.root.children.push(node("Gone", "Folder"));
    reindex_root(&mut after.root);
    let patch = diff(&before, &after);
    assert_eq!(patch.added(), 2);
    assert_eq!(patch.updated(), 1);
    assert_eq!(patch.removed(), 0);
    assert_eq!(patch.summary(), "+2 ~1 -0");
    let lines = patch.lines(10);
    assert_eq!(
        lines,
        vec![
            "~ Shared/Greeting (Source, @New, -@Old, tags)".to_string(),
            "+ Shared/Extra [Folder] (+1 inside)".to_string(),
            "+ Gone [Folder]".to_string(),
        ]
    );
    let back = diff(&after, &before);
    assert_eq!(back.removed(), 2);
    assert!(matches!(&back.ops[1], Op::Remove { id } if id == "Shared/Extra"));
}

#[test]
fn lines_stop_at_the_limit() {
    let before = tree(vec![]);
    let after = tree(vec![node("A", "Folder"), node("B", "Folder"), node("C", "Folder")]);
    let patch = diff(&before, &after);
    assert_eq!(
        patch.lines(2),
        vec!["+ A [Folder]".to_string(), "+ B [Folder]".to_string(), "and 1 more".to_string()]
    );
    assert_eq!(patch.lines(0), vec!["and 3 more".to_string()]);
    assert_eq!(patch.lines(3).len(), 3);
}

#[test]
fn references_are_never_synced() {
    let before = tree(vec![]);
    let after = sample();
    let patch = diff(&before, &after);
    match &patch.ops[0] {
        Op::Add { parent, node } => {
            assert_eq!(parent, "");
            assert_eq!(node.children.len(), 1);
            assert_eq!(node.children[0].name, "Greeting");
        }
        _ => panic!("expected an add"),
    }
    let synced = syncable(&sample());
    assert_eq!(synced.root.children[0].children.len(), 1);
}

#[test]
fn class_changes_are_updates() {
    let before = tree(vec![node("A", "Folder")]);
    let after = tree(vec![node("A", "Model")]);
    let patch = diff(&before, &after);
    assert_eq!(patch.lines(5), vec!["~ A (class)".to_string()]);
    let empty = Patch::default();
    assert!(empty.lines(5).is_empty());
}
