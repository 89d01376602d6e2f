pub mod data;
pub mod files;
pub mod modules;
pub mod outbox;

use vstd::prelude::*;
use crate::ir::{node_views, Node, NodeV};
use crate::json::{assoc_get, Json, JsonV};
use crate::project::meta::{parse, parse_spec, MetaV};
use crate::project::scan::{apply_declaration, class_or_folder, declared_node};
use crate::project::{Loaded, LoadedV};

verus! {

/// What hook scripts are told about their project.
#[derive(Debug)]
pub struct Setup {
    pub root: String,
    pub name: String,
    pub id: String,
    pub manifest: String,
    pub scripts: Json,
}

/// Whether the manifest's `Scripts` settings let hook scripts run
/// programs: only an `AllowExec` set to `true` does.
pub open spec fn allow_exec_spec(scripts: JsonV) -> bool {
    match scripts {
        JsonV::Object(m) => assoc_get(m, "AllowExec"@) == Some(JsonV::Bool(true)),
        _ => false,
    }
}

impl Setup {
    /// Whether hook scripts may run programs.
    pub fn allow_exec(&self) -> (r: bool)
        ensures
            r == allow_exec_spec(self.scripts@),
    {
        match self.scripts.get("AllowExec") {
            Some(v) => match v.as_bool() {
                Some(b) => b,
                None => false,
            },
            None => false,
        }
    }
}

/// The children a transpiled declaration makes, in order: each one not
/// ignored, built as a declared child.
pub open spec fn built_children(cs: Seq<(Seq<char>, MetaV)>) -> Seq<NodeV>
    decreases cs.len(),
{
    if cs.len() == 0 {
        Seq::empty()
    } else {
        let r = built_children(cs.drop_last());
        let (name, child) = cs.last();
        if child.ignore {
            r
        } else {
            r.push(
                declared_node(
                    crate::ir::fresh(Seq::empty(), name, class_or_folder(child.class_name), crate::ir::Ownership::Managed),
                    child,
                ),
            )
        }
    }
}

/// The instance a transpiler's value declares: skipped when it says to
/// ignore it, otherwise what it declares with its children built.
pub open spec fn single_spec(v: JsonV) -> LoadedV {
    let d = parse_spec(v);
    if d.ignore {
        LoadedV {
            class_name: None,
            name: None,
            parent: None,
            properties: Seq::empty(),
            attributes: Seq::empty(),
            tags: Seq::empty(),
            children: Seq::empty(),
            skip: true,
        }
    } else {
        LoadedV {
            class_name: d.class_name,
            name: d.name,
            parent: d.parent,
            properties: d.properties,
            attributes: d.attributes,
            tags: d.tags,
            children: built_children(d.children),
            skip: false,
        }
    }
}

/// The instance a transpiler's value declares (see `single_spec`).
pub fn single(decoded: &Json) -> (r: Loaded)
    ensures
        r@ == single_spec(decoded@),
{
    let parsed = parse(decoded);
    if parsed.ignore {
        let mut r = Loaded::default();
        r.skip = true;
        assert(r@.properties =~= Seq::<(Seq<char>, JsonV)>::empty());
        assert(r@.attributes =~= Seq::<(Seq<char>, JsonV)>::empty());
        assert(r@.tags =~= Seq::<Seq<char>>::empty());
        assert(r@.children =~= Seq::<NodeV>::empty());
        return r;
    }
    let ghost d = parsed@;
    let mut children: Vec<Node> = Vec::new();
    let mut i: usize = 0;
    while i < parsed.children.len()
        invariant
            i <= parsed.children@.len(),
            d == parsed@,
            d.children.len() == parsed.children@.len(),
            node_views(children@) == built_children(d.children.take(i as int)),
        decreases parsed.children@.len() - i,
    {
        let name = &parsed.children[i].0;
        let child = &parsed.children[i].1;
        assert(d.children[i as int] == (name@, child@));
        assert(d.children.take(i + 1).drop_last() =~= d.children.take(i as int));
        if !child.ignore {
            let mut node = Node::new(
                String::new(),
                name.clone(),
                match &child.class_name {
                    Some(c) => c.clone(),
                    None => String::from_str("Folder"),
                },
            );
            apply_declaration(&mut node, child);
            let ghost prev = node_views(children@);
            let ghost n = node@;
            children.push(node);
            assert(node_views(children@) =~= prev.push(n));
        }
        i = i + 1;
    }
    assert(d.children.take(i as int) =~= d.children);
    let r = Loaded {
        class_name: parsed.class_name,
        name: parsed.name,
        parent: parsed.parent,
        properties: parsed.properties,
        attributes: parsed.attributes,
        tags: parsed.tags,
        children,
        skip: false,
    };
    r
}

/// The instances a transpiler's value declares: one per item of an array,
/// else one.
pub open spec fn transpiled_spec(v: JsonV) -> Seq<LoadedV> {
    match v {
        JsonV::Array(items) => items.map_values(|i: JsonV| single_spec(i)),
        _ => seq![single_spec(v)],
    }
}

/// The instances a transpiler's value declares (see `transpiled_spec`).
pub fn transpiled(decoded: &Json) -> (r: Vec<Loaded>)
    ensures
        r@.map_values(|l: Loaded| l@) == transpiled_spec(decoded@),
{
    match decoded.as_array() {
        Some(items) => {
            let mut out: Vec<Loaded> = Vec::new();
            let mut i: usize = 0;
            while i < items.len()
                invariant
                    i <= items@.len(),
                    out@.len() == i,
                    forall|k: int| 0 <= k < i ==> (#[trigger] out@[k])@ == single_spec(items@[k]@),
                decreases items@.len() - i,
            {
                out.push(single(&items[i]));
                i = i + 1;
            }
            assert(out@.map_values(|l: Loaded| l@) =~= transpiled_spec(decoded@));
            out
        },
        None => {
            let out = vec![single(decoded)];
            assert(out@.map_values(|l: Loaded| l@) =~= transpiled_spec(decoded@));
            out
        },
    }
}

/// A transpiler that returned text makes a `ModuleScript` with that source.
pub fn source_module(text: String) -> (r: Loaded)
    ensures
        r@.class_name == Some("ModuleScript"@),
        r@.name is None,
        r@.parent is None,
        r@.properties == seq![("Source"@, JsonV::Text(text@))],
        r@.attributes.len() == 0,
        r@.tags.len() == 0,
        r@.children.len() == 0,
        !r@.skip,
{
    let mut r = Loaded::default();
    r.class_name = Some(String::from_str("ModuleScript"));
    r.properties.insert(String::from_str("Source"), Json::Text(text));
    r
}

/// What a hook is told about a file: its path from the project folder, its
/// name, the name up to its first dot, its folder and its extension.
#[derive(Debug)]
pub struct FileContext {
    pub path: String,
    pub name: String,
    pub stem: String,
    pub folder: String,
    pub extension: String,
}

/// `s` up to its first `.`.
pub open spec fn before_dot(s: Seq<char>) -> Seq<char>
    decreases s.len(),
{
    if s.len() == 0 {
        s
    } else if s[0] == '.' {
        Seq::empty()
    } else {
        seq![s[0]] + before_dot(s.drop_first())
    }
}

/// What a hook is told about the file at `relative`.
pub fn context_of(relative: &str) -> (r: FileContext)
    ensures
        r.path@ == relative@,
        r.name@ == crate::cli::manifest_spec(relative@),
        r.stem@ == before_dot(crate::cli::manifest_spec(relative@)),
        r.folder@ == crate::hooks::modules::folder_spec(relative@),
        r.extension@ == crate::project::classify::extension_spec(relative@),
{
    let (_, name) = crate::cli::locate_name(relative);
    let cs = crate::text::chars_of(name.as_str());
    let mut stem: Vec<char> = Vec::new();
    let mut i: usize = 0;
    assert(cs@.skip(0) =~= cs@);
    assert(stem@ + before_dot(cs@.skip(0)) =~= before_dot(name@));
    while i < cs.len() && cs[i] != '.'
        invariant
            i <= cs@.len(),
            cs@ == name@,
            stem@ == cs@.take(i as int),
            before_dot(name@) == stem@ + before_dot(cs@.skip(i as int)),
        decreases cs@.len() - i,
    {
        assert(cs@.skip(i as int).drop_first() =~= cs@.skip(i + 1));
        let ghost prev = stem@;
        stem.push(cs[i]);
        assert(cs@.take(i + 1) =~= cs@.take(i as int).push(cs@[i as int]));
        assert(stem@ + before_dot(cs@.skip(i + 1)) =~= prev + (seq![cs@[i as int]] + before_dot(
            cs@.skip(i + 1),
        )));
        i = i + 1;
    }
    assert(before_dot(cs@.skip(i as int)) =~= Seq::<char>::empty());
    FileContext {
        path: crate::text::copy_str(relative),
        name,
        stem: crate::text::string_of(stem.as_slice()),
        folder: crate::hooks::modules::folder(relative),
        extension: crate::project::classify::extension(relative),
    }
}

} // verus!
