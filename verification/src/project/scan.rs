//! Builds the instance tree from a project: placing declared services,
//! merging nodes that share a name, and the rules for files and folders.
use vstd::prelude::*;
use crate::ir::{
    fresh, new_tree, first_named, has_path, keeps_paths, lemma_first_named, lemma_keeps_paths_trans,
    lemma_same_children_paths, lemma_replaced_keeps_paths, law_sort_reindex_keeps_paths, lemma_node_view_children,
    lemma_node_views_update, lemma_tree_smaller, node_size, node_views, forest_size, Node, NodeV,
    Ownership, Tree, reached, replaced, reindexed, reindexed_root, sorted_tree,
};
use crate::json::{assoc_get, json_parsed, parse_json, Json, JsonMap, JsonV};
use crate::literal::{module, written};
use crate::project::classify::{asset_class, asset_class_spec, script_class, Script};
use crate::project::{file_outcome, source_outcome, Loaded, LoadedV, Transform};
use crate::project::classify::{classify, classify_spec, Kind, KindV};
use crate::project::meta::{decode, decoded, parse, parse_many, parse_many_spec};
use crate::paths::{child, child_spec, contains_string, copy_strings, join, joined, split, split_spec, views};
use crate::project::meta::{blank_meta, insert_all, parse_spec, Meta, MetaV};
use crate::patch::opt_view;
use crate::text::{eq_ignore_case, eq_ignore_case_chars, chars_of, compare_str, lemma_str_lt_irreflexive, lemma_str_lt_transitive, str_lt, copy_str, push_str, same_str, trim_leading, trim_matches, trim_trailing};

verus! {

/// The class of a container made on the way to a path: the service itself
/// at the top, `StarterPlayerScripts` and `StarterCharacterScripts` as
/// themselves, a `Folder` anywhere else.
pub open spec fn container_spec(depth: nat, part: Seq<char>) -> Seq<char> {
    if depth == 0 || part == "StarterPlayerScripts"@ || part == "StarterCharacterScripts"@ {
        part
    } else {
        "Folder"@
    }
}

/// The class of the container at `depth` named `part`.
pub fn container(depth: usize, part: &str) -> (r: String)
    ensures
        r@ == container_spec(depth as nat, part@),
{
    if depth == 0 || same_str(part, "StarterPlayerScripts") || same_str(part, "StarterCharacterScripts") {
        copy_str(part)
    } else {
        String::from_str("Folder")
    }
}

/// `base` with each item of `extra` appended, in order, unless already
/// there.
pub open spec fn added_to(base: Seq<Seq<char>>, extra: Seq<Seq<char>>) -> Seq<Seq<char>>
    decreases extra.len(),
{
    if extra.len() == 0 {
        base
    } else {
        let b = added_to(base, extra.drop_last());
        if b.contains(extra.last()) {
            b
        } else {
            b.push(extra.last())
        }
    }
}

/// `into` with each item of `extra` appended unless already there.
fn add_missing(into: &mut Vec<String>, extra: &Vec<String>)
    ensures
        views(final(into)@) == added_to(views(old(into)@), views(extra@)),
{
    let ghost start = views(into@);
    let mut i: usize = 0;
    while i < extra.len()
        invariant
            i <= extra@.len(),
            views(into@) == added_to(start, views(extra@).take(i as int)),
        decreases extra@.len() - i,
    {
        assert(views(extra@).take(i + 1).drop_last() =~= views(extra@).take(i as int));
        assert(views(extra@).take(i + 1).last() == extra@[i as int]@);
        if !contains_string(into, extra[i].as_str()) {
            let ghost prev = views(into@);
            into.push(extra[i].clone());
            assert(views(into@) =~= prev.push(extra@[i as int]@));
        }
        i = i + 1;
    }
    assert(views(extra@).take(extra@.len() as int) =~= views(extra@));
}

/// `t` with `inc` merged into it: `inc`'s class unless that is `Folder`,
/// managed if either is, `inc`'s properties and attributes over `t`'s, the
/// tags and files `t` lacks, then each child of `inc` attached.
pub open spec fn merged(t: NodeV, inc: NodeV) -> NodeV
    decreases node_size(inc), 1int,
{
    let t1 = NodeV {
        class_name: if inc.class_name != "Folder"@ {
            inc.class_name
        } else {
            t.class_name
        },
        ownership: if inc.ownership == Ownership::Managed {
            Ownership::Managed
        } else {
            t.ownership
        },
        properties: insert_all(t.properties, inc.properties),
        attributes: insert_all(t.attributes, inc.attributes),
        tags: added_to(t.tags, inc.tags),
        file_paths: added_to(t.file_paths, inc.file_paths),
        ..t
    };
    attach_all(t1, inc.children)
}

/// `t` with each of `cs` attached in turn.
pub open spec fn attach_all(t: NodeV, cs: Seq<NodeV>) -> NodeV
    decreases forest_size(cs), 3int,
{
    if cs.len() == 0 {
        t
    } else {
        proof {
            lemma_tree_smaller(cs, cs.len() - 1);
        }
        attached(attach_all(t, cs.drop_last()), cs.last())
    }
}

/// `slot` with `n` merged into its first child of the same name, or added
/// as its last child when it has none.
pub open spec fn attached(slot: NodeV, n: NodeV) -> NodeV
    decreases node_size(n), 2int,
{
    match first_named(slot.children, n.name) {
        Some(i) => NodeV { children: slot.children.update(i, merged(slot.children[i], n)), ..slot },
        None => NodeV { children: slot.children.push(n), ..slot },
    }
}

/// Attaches `node` to `slot`: merged into the child of the same name, or
/// added as the last child.
pub fn attach(slot: &mut Node, node: Node)
    ensures
        final(slot)@ == attached(old(slot)@, node@),
    decreases node_size(node@), 2int,
{
    broadcast use lemma_node_view_children, lemma_node_views_update;

    proof {
        lemma_first_named(slot@.children, node@.name);
    }
    let ghost before = slot@;
    match slot.child_index(node.name.as_str()) {
        Some(index) => {
            let ghost n = node@;
            let ghost sv = *slot;
            merge(&mut slot.children[index], node);
            proof {
                assert(slot@.children =~= before.children.update(
                    index as int,
                    merged(before.children[index as int], n),
                ));
            }
        },
        None => {
            let ghost n = node@;
            slot.children.push(node);
            proof {
                assert(node_views(slot.children@) =~= before.children.push(n));
            }
        },
    }
}

/// Merges `incoming` into `target` (see `merged`).
pub fn merge(target: &mut Node, incoming: Node)
    ensures
        final(target)@ == merged(old(target)@, incoming@),
    decreases node_size(incoming@), 1int,
{
    broadcast use lemma_node_view_children;

    let ghost t = target@;
    let ghost inc = incoming@;
    if !same_str(incoming.class_name.as_str(), "Folder") {
        target.class_name = copy_str(incoming.class_name.as_str());
    }
    if incoming.ownership == Ownership::Managed {
        target.ownership = Ownership::Managed;
    }
    crate::project::meta::insert_each(&mut target.properties, &incoming.properties);
    crate::project::meta::insert_each(&mut target.attributes, &incoming.attributes);
    add_missing(&mut target.tags, &incoming.tags);
    add_missing(&mut target.file_paths, &incoming.file_paths);
    let ghost t1 = target@;
    assert(t1 == (NodeV {
        class_name: if inc.class_name != "Folder"@ {
            inc.class_name
        } else {
            t.class_name
        },
        ownership: if inc.ownership == Ownership::Managed {
            Ownership::Managed
        } else {
            t.ownership
        },
        properties: insert_all(t.properties, inc.properties),
        attributes: insert_all(t.attributes, inc.attributes),
        tags: added_to(t.tags, inc.tags),
        file_paths: added_to(t.file_paths, inc.file_paths),
        ..t
    }));
    let mut kids = incoming.children;
    let ghost all = kids@;
    assert(node_views(all) == inc.children);
    let mut i: usize = 0;
    let total = kids.len();
    assert(all.skip(0) =~= all);
    while kids.len() > 0
        invariant
            i + kids@.len() == all.len(),
            all.len() == total,
            inc == incoming@,
            kids@ == all.skip(i as int),
            node_views(all) == inc.children,
            node_size(inc) == 1 + forest_size(inc.children),
            target@ == attach_all(t1, inc.children.take(i as int)),
        decreases kids@.len(),
    {
        let c = kids.remove(0);
        assert(c == all[i as int]);
        proof {
            lemma_tree_smaller(inc.children, i as int);
            assert(inc.children.take(i + 1).drop_last() =~= inc.children.take(i as int));
            assert(inc.children.take(i + 1).last() == c@);
            assert(kids@ =~= all.skip(i + 1));
        }
        attach(target, c);
        i = i + 1;
    }
    assert(inc.children.take(i as int) =~= inc.children);
}

/// `m` with the entries of `es` inserted in turn, save the one keyed `k`.
pub open spec fn insert_all_but(m: Seq<(Seq<char>, JsonV)>, es: Seq<(Seq<char>, JsonV)>, k: Seq<char>) -> Seq<
    (Seq<char>, JsonV),
>
    decreases es.len(),
{
    if es.len() == 0 {
        m
    } else if es.last().0 == k {
        insert_all_but(m, es.drop_last(), k)
    } else {
        crate::json::sorted_insert(insert_all_but(m, es.drop_last(), k), es.last().0, es.last().1)
    }
}

/// `slot` given what a folder mounted on it holds: its properties but its
/// `Source`, its attributes, the tags and files `slot` lacks, then its
/// children attached. The class and ownership of `slot` stay.
pub open spec fn filled(slot: NodeV, c: NodeV) -> NodeV {
    attach_all(
        NodeV {
            properties: insert_all_but(slot.properties, c.properties, "Source"@),
            attributes: insert_all(slot.attributes, c.attributes),
            tags: added_to(slot.tags, c.tags),
            file_paths: added_to(slot.file_paths, c.file_paths),
            ..slot
        },
        c.children,
    )
}

/// Attaches each of `kids` to `slot` in order.
fn attach_each(slot: &mut Node, kids: Vec<Node>)
    ensures
        final(slot)@ == attach_all(old(slot)@, node_views(kids@)),
{
    let ghost start = slot@;
    let ghost all = kids@;
    let mut kids = kids;
    let total = kids.len();
    let mut i: usize = 0;
    assert(all.skip(0) =~= all);
    while kids.len() > 0
        invariant
            i + kids@.len() == all.len(),
            all.len() == total,
            kids@ == all.skip(i as int),
            slot@ == attach_all(start, node_views(all).take(i as int)),
        decreases kids@.len(),
    {
        let c = kids.remove(0);
        assert(c == all[i as int]);
        proof {
            let t = node_views(all).take(i + 1);
            assert(t.drop_last() =~= node_views(all).take(i as int));
            assert(t.last() == c@);
            assert(kids@ =~= all.skip(i + 1));
        }
        attach(slot, c);
        i = i + 1;
    }
    assert(node_views(all).take(i as int) =~= node_views(all));
}

/// Gives `slot` what a folder mounted on it holds (see `filled`).
pub fn fill(slot: &mut Node, contents: Node)
    ensures
        final(slot)@ == filled(old(slot)@, contents@),
{
    broadcast use lemma_node_view_children;

    let ghost c = contents@;
    let ghost start = slot@;
    let mut i: usize = 0;
    while i < contents.properties.len()
        invariant
            i <= c.properties.len(),
            c == contents@,
            slot@ == (NodeV {
                properties: insert_all_but(start.properties, c.properties.take(i as int), "Source"@),
                ..start
            }),
        decreases c.properties.len() - i,
    {
        assert(c.properties.take(i + 1).drop_last() =~= c.properties.take(i as int));
        let key = contents.properties.key_at(i);
        if !same_str(key.as_str(), "Source") {
            slot.properties.insert(key.clone(), contents.properties.value_at(i).clone());
        }
        i = i + 1;
    }
    assert(c.properties.take(c.properties.len() as int) =~= c.properties);
    crate::project::meta::insert_each(&mut slot.attributes, &contents.attributes);
    add_missing(&mut slot.tags, &contents.tags);
    add_missing(&mut slot.file_paths, &contents.file_paths);
    attach_each(slot, contents.children);
}

/// `n` with what `d` declares of properties, attributes and tags.
pub open spec fn applied(n: NodeV, d: MetaV) -> NodeV {
    NodeV {
        properties: insert_all(n.properties, d.properties),
        attributes: insert_all(n.attributes, d.attributes),
        tags: added_to(n.tags, d.tags),
        ..n
    }
}

/// Gives `node` the properties, attributes and tags `declared` holds.
pub fn apply(node: &mut Node, declared: &Meta)
    ensures
        final(node)@ == applied(old(node)@, declared@),
{
    crate::project::meta::insert_each(&mut node.properties, &declared.properties);
    crate::project::meta::insert_each(&mut node.attributes, &declared.attributes);
    add_missing(&mut node.tags, &declared.tags);
}

/// The class a declaration names, `Folder` when it names none.
pub open spec fn class_or_folder(c: Option<Seq<char>>) -> Seq<char> {
    match c {
        Some(x) => x,
        None => "Folder"@,
    }
}

/// `n` with all of `d` applied: properties, attributes and tags, the name
/// it gives, `Reference` ownership for a model, then each child it declares
/// that is not ignored, built with `n`'s ownership and attached.
pub open spec fn declared_node(n: NodeV, d: MetaV) -> NodeV
    decreases d, d.children.len() + 1,
{
    let a = applied(n, d);
    let b = match d.name {
        Some(x) => NodeV { name: x, ..a },
        None => a,
    };
    let c = if d.from_model is Some {
        NodeV { ownership: Ownership::Reference, ..b }
    } else {
        b
    };
    declared_children(c, d, d.children.len() as int)
}

/// `n` with the first `k` children `d` declares attached.
pub open spec fn declared_children(n: NodeV, d: MetaV, k: int) -> NodeV
    decreases d, k,
{
    if k <= 0 || k > d.children.len() {
        n
    } else {
        let m = declared_children(n, d, k - 1);
        let name = d.children[k - 1].0;
        let child = d.children[k - 1].1;
        if child.ignore {
            m
        } else {
            proof {
                assert(decreases_to!(d => d.children[k - 1].1));
            }
            attached(
                m,
                declared_node(
                    fresh(Seq::empty(), name, class_or_folder(child.class_name), m.ownership),
                    child,
                ),
            )
        }
    }
}

/// The class a declaration names, `Folder` when it names none.
fn class_or_folder_of(c: &Option<String>) -> (r: String)
    ensures
        r@ == class_or_folder(crate::patch::opt_view(*c)),
{
    match c {
        Some(x) => x.clone(),
        None => String::from_str("Folder"),
    }
}

/// Applies all of `declared` to `node` (see `declared_node`).
pub fn apply_declaration(node: &mut Node, declared: &Meta)
    ensures
        final(node)@ == declared_node(old(node)@, declared@),
    decreases declared,
{
    let ghost d = declared@;
    apply(node, declared);
    if let Some(name) = &declared.name {
        node.name = name.clone();
    }
    if declared.from_model.is_some() {
        node.ownership = Ownership::Reference;
    }
    let ghost c = node@;
    let mut i: usize = 0;
    while i < declared.children.len()
        invariant
            i <= d.children.len(),
            d == declared@,
            d.children.len() == declared.children@.len(),
            node@ == declared_children(c, d, i as int),
            node@.ownership == c.ownership,
        decreases d.children.len() - i,
    {
        let child = &declared.children[i].1;
        assert(d.children[i as int] == (declared.children@[i as int].0@, child@));
        if !child.ignore {
            proof {
                assert(decreases_to!(*declared => declared.children@[i as int].1));
            }
            let mut built = Node::new(
                String::new(),
                declared.children[i].0.clone(),
                class_or_folder_of(&child.class_name),
            );
            built.ownership = node.ownership;
            apply_declaration(&mut built, child);
            attach(node, built);
        }
        i = i + 1;
    }
}

/// `v` with `r` among the files of every node, added last where missing.
pub open spec fn stamped(v: NodeV, r: Seq<char>) -> NodeV
    decreases v,
{
    NodeV {
        file_paths: if v.file_paths.contains(r) {
            v.file_paths
        } else {
            v.file_paths.push(r)
        },
        children: Seq::new(
            v.children.len(),
            |i: int|
                if 0 <= i < v.children.len() {
                    stamped(v.children[i], r)
                } else {
                    v
                },
        ),
        ..v
    }
}

/// Records `relative` as a file of every node of the tree.
pub fn stamp(node: &mut Node, relative: &str)
    ensures
        final(node)@ == stamped(old(node)@, relative@),
    decreases node_size(old(node)@),
{
    broadcast use lemma_node_view_children, lemma_node_views_update;

    let ghost before = node@;
    if !contains_string(&node.file_paths, relative) {
        let ghost prev = views(node.file_paths@);
        node.file_paths.push(copy_str(relative));
        assert(views(node.file_paths@) =~= prev.push(relative@));
    }
    let ghost mid = node@;
    let mut i: usize = 0;
    while i < node.children.len()
        invariant
            i <= node.children@.len(),
            node@.children.len() == before.children.len(),
            node_size(before) == 1 + forest_size(before.children),
            node@ == (NodeV {
                children: node@.children,
                ..mid
            }),
            mid.children == before.children,
            before == old(node)@,
            forall|k: int| 0 <= k < i ==> node@.children[k] == stamped(before.children[k], relative@),
            forall|k: int| i <= k < node@.children.len() ==> node@.children[k] == before.children[k],
        decreases node.children@.len() - i,
    {
        proof {
            lemma_tree_smaller(before.children, i as int);
        }
        let ghost prev = node.children@;
        let ghost prev_view = node@.children;
        assert(prev_view == node_views(prev));
        assert(prev[i as int]@ == before.children[i as int]);
        stamp(&mut node.children[i], relative);
        proof {
            assert(node.children@[i as int]@ == stamped(before.children[i as int], relative@));
            assert(node.children@ =~= prev.update(i as int, node.children@[i as int]));
            assert(node@.children == node_views(prev).update(i as int, node.children@[i as int]@));
            assert forall|k: int| 0 <= k < i + 1 implies node@.children[k] == stamped(
                before.children[k],
                relative@,
            ) by {
                if k < i {
                    assert(node@.children[k] == prev_view[k]);
                }
            }
        }
        i = i + 1;
    }
    assert(node@.children =~= stamped(before, relative@).children);
}

/// Whether a declaration says nothing that makes an instance.
pub open spec fn blank_spec(d: MetaV) -> bool {
    d.class_name is None && d.from_model is None && d.path is None && d.children.len() == 0
        && d.properties.len() == 0 && d.attributes.len() == 0 && d.tags.len() == 0
}

/// Whether a declaration says nothing that makes an instance.
pub fn blank(declared: &Meta) -> (r: bool)
    ensures
        r == blank_spec(declared@),
{
    declared.class_name.is_none() && declared.from_model.is_none() && declared.path.is_none()
        && declared.children.len() == 0 && declared.properties.is_empty()
        && declared.attributes.is_empty() && declared.tags.len() == 0
}

/// `t` with `n` attached at the path `parent`, containers made on the way.
pub open spec fn placed(t: NodeV, parent: Seq<char>, n: NodeV) -> NodeV {
    let p = split_spec(parent);
    replaced(t, p, Seq::empty(), 0, attached(reached(t, p, Seq::empty(), 0), n))
}

/// Attaches `node` at the path `parent` of the tree.
pub fn place(tree: &mut Tree, parent: &str, node: Node)
    ensures
        final(tree)@ == placed(old(tree)@, parent@, node@),
{
    let parts = split(parent);
    let slot = tree.reserve(parts.as_slice());
    attach(slot, node);
}

/// Whether a top-level folder is synced: not excluded, and included when
/// an included list is given.
pub open spec fn wanted_spec(included: Seq<Seq<char>>, excluded: Seq<Seq<char>>, name: Seq<char>) -> bool {
    !excluded.contains(name) && (included.len() == 0 || included.contains(name))
}

/// Whether the top-level folder `name` is synced.
pub fn wanted(included: &Vec<String>, excluded: &Vec<String>, name: &str) -> (r: bool)
    ensures
        r == wanted_spec(views(included@), views(excluded@), name@),
{
    if contains_string(excluded, name) {
        return false;
    }
    if included.len() == 0 {
        return true;
    }
    contains_string(included, name)
}

/// The non-empty names of a list, without slashes at either end.
pub open spec fn name_items(items: Seq<JsonV>) -> Seq<Seq<char>>
    decreases items.len(),
{
    if items.len() == 0 {
        Seq::empty()
    } else {
        let r = name_items(items.drop_last());
        match items.last() {
            JsonV::Text(s) => {
                let t = trim_trailing(trim_leading(s, '/'), '/');
                if t.len() > 0 {
                    r.push(t)
                } else {
                    r
                }
            },
            _ => r,
        }
    }
}

/// The names listed under `key` (or `$key` when there is no `key`).
pub open spec fn names_spec(es: Seq<(Seq<char>, JsonV)>, key: Seq<char>) -> Seq<Seq<char>> {
    let found = match assoc_get(es, key) {
        Some(v) => Some(v),
        None => assoc_get(es, seq!['$'] + key),
    };
    match found {
        Some(JsonV::Array(items)) => name_items(items),
        _ => Seq::empty(),
    }
}

/// The names listed under `key` (or `$key`).
pub fn names(object: &JsonMap, key: &str) -> (r: Vec<String>)
    ensures
        views(r@) == names_spec(object@, key@),
{
    let mut dollar = String::from_str("$");
    push_str(&mut dollar, key);
    proof {
        reveal_strlit("$");
        assert(dollar@ =~= seq!['$'] + key@);
    }
    let found = match object.get(key) {
        Some(v) => Some(v),
        None => object.get(dollar.as_str()),
    };
    let mut out: Vec<String> = Vec::new();
    if let Some(v) = found {
        if let Some(items) = v.as_array() {
            let ghost vs = crate::json::json_views(items@);
            let mut i: usize = 0;
            while i < items.len()
                invariant
                    i <= items@.len(),
                    vs == crate::json::json_views(items@),
                    views(out@) == name_items(vs.take(i as int)),
                decreases items@.len() - i,
            {
                assert(vs.take(i + 1).drop_last() =~= vs.take(i as int));
                assert(vs.take(i + 1).last() == items@[i as int]@);
                if let Some(text) = items[i].as_str() {
                    let t = trim_matches(text.as_str(), '/');
                    if !t.as_str().is_empty() {
                        let ghost prev = views(out@);
                        out.push(t);
                        assert(views(out@) =~= prev.push(out@.last()@));
                    }
                }
                i = i + 1;
            }
            assert(vs.take(vs.len() as int) =~= vs);
        }
    }
    out
}

/// A project's settings, from its manifest.
#[derive(Debug)]
pub struct Config {
    pub id: String,
    pub name: String,
    pub default_parent: Option<String>,
    pub services: Vec<(String, Meta)>,
    pub included: Vec<String>,
    pub excluded: Vec<String>,
    pub scripts: Json,
}

/// A `Config` with its text as character sequences.
pub struct ConfigV {
    pub id: Seq<char>,
    pub name: Seq<char>,
    pub default_parent: Option<Seq<char>>,
    pub services: Seq<(Seq<char>, MetaV)>,
    pub included: Seq<Seq<char>>,
    pub excluded: Seq<Seq<char>>,
    pub scripts: JsonV,
}

impl View for Config {
    type V = ConfigV;

    open spec fn view(&self) -> ConfigV {
        ConfigV {
            id: self.id@,
            name: self.name@,
            default_parent: crate::patch::opt_view(self.default_parent),
            services: self.services@.map_values(|e: (String, Meta)| (e.0@, e.1@)),
            included: views(self.included@),
            excluded: views(self.excluded@),
            scripts: self.scripts@,
        }
    }
}

/// The value under `a`, or under `b` when there is none under `a`.
pub open spec fn either(es: Seq<(Seq<char>, JsonV)>, a: Seq<char>, b: Seq<char>) -> Option<JsonV> {
    match assoc_get(es, a) {
        Some(v) => Some(v),
        None => assoc_get(es, b),
    }
}

/// A key of the manifest that is a setting, not a service.
pub open spec fn reserved(k: Seq<char>) -> bool {
    k == "ProjectID"@ || k == "Default"@ || k == "Name"@ || k == "Include"@ || k == "Exclude"@
        || k == "Scripts"@
}

/// The services the first `n` entries of a manifest declare: each entry
/// holding an object whose key is neither a setting nor starts with `$`.
pub open spec fn services_spec(es: Seq<(Seq<char>, JsonV)>, n: int) -> Seq<(Seq<char>, MetaV)>
    decreases n,
{
    if n <= 0 || n > es.len() {
        Seq::empty()
    } else {
        let r = services_spec(es, n - 1);
        let k = es[n - 1].0;
        let e = es[n - 1].1;
        if (k.len() > 0 && k[0] == '$') || reserved(k) || !(e is Object) {
            r
        } else {
            r.push((k, crate::project::meta::parse_spec(e)))
        }
    }
}

/// The settings of a project whose folder is named `folder`: the defaults
/// where there is no manifest, else what the manifest holds.
pub open spec fn config_spec(folder: Seq<char>, manifest: Option<JsonV>) -> ConfigV {
    match manifest {
        None => ConfigV {
            id: folder,
            name: folder,
            default_parent: None,
            services: Seq::empty(),
            included: Seq::empty(),
            excluded: Seq::empty(),
            scripts: JsonV::Null,
        },
        Some(v) => {
            let es = match v {
                JsonV::Object(es) => es,
                _ => Seq::empty(),
            };
            ConfigV {
                id: match either(es, "ProjectID"@, "$ProjectID"@) {
                    Some(JsonV::Text(s)) => s,
                    _ => folder,
                },
                name: match assoc_get(es, "Name"@) {
                    Some(JsonV::Text(s)) => s,
                    _ => folder,
                },
                default_parent: match either(es, "Default"@, "$Default"@) {
                    Some(JsonV::Text(s)) => Some(s),
                    _ => None,
                },
                services: services_spec(es, es.len() as int),
                included: names_spec(es, "Include"@),
                excluded: names_spec(es, "Exclude"@),
                scripts: match assoc_get(es, "Scripts"@) {
                    Some(x) => x,
                    None => JsonV::Null,
                },
            }
        },
    }
}

/// The text under `a`, or under `b` when there is nothing under `a`.
fn either_text(object: &JsonMap, a: &str, b: &str) -> (r: Option<String>)
    ensures
        opt_view(r) == match either(object@, a@, b@) {
            Some(JsonV::Text(s)) => Some(s),
            _ => None::<Seq<char>>,
        },
{
    let found = match object.get(a) {
        Some(v) => Some(v),
        None => object.get(b),
    };
    match found {
        Some(v) => crate::project::meta::text(v),
        None => None,
    }
}

/// The settings of a project whose folder is named `folder`, given what its
/// manifest holds, or `None` where it has none.
pub fn config_from(folder: &str, manifest: Option<&Json>) -> (r: Config)
    ensures
        r@ == config_spec(folder@, match manifest {
            Some(v) => Some(v@),
            None => None,
        }),
{
    let value = match manifest {
        None => {
            let r = Config {
                id: copy_str(folder),
                name: copy_str(folder),
                default_parent: None,
                services: Vec::new(),
                included: Vec::new(),
                excluded: Vec::new(),
                scripts: Json::Null,
            };
            assert(r@.services =~= Seq::<(Seq<char>, MetaV)>::empty());
            assert(r@.included =~= Seq::<Seq<char>>::empty());
            assert(r@.excluded =~= Seq::<Seq<char>>::empty());
            return r;
        },
        Some(v) => v,
    };
    let empty = JsonMap::new();
    let object = match value.as_object() {
        Some(o) => o,
        None => &empty,
    };
    let ghost es = object@;
    proof {
        reveal_strlit("ProjectID");
        reveal_strlit("Default");
        reveal_strlit("Name");
        reveal_strlit("Include");
        reveal_strlit("Exclude");
        reveal_strlit("Scripts");
    }
    let id = match either_text(object, "ProjectID", "$ProjectID") {
        Some(s) => s,
        None => copy_str(folder),
    };
    let default_parent = either_text(object, "Default", "$Default");
    let included = names(object, "Include");
    let excluded = names(object, "Exclude");
    let scripts = match object.get("Scripts") {
        Some(x) => x.clone(),
        None => Json::Null,
    };
    let mut services: Vec<(String, Meta)> = Vec::new();
    let mut i: usize = 0;
    while i < object.len()
        invariant
            i <= es.len(),
            es == object@,
            services@.map_values(|e: (String, Meta)| (e.0@, e.1@)) == services_spec(es, i as int),
        decreases es.len() - i,
    {
        let key = object.key_at(i);
        let entry = object.value_at(i);
        let cs = chars_of(key.as_str());
        let dollar = cs.len() > 0 && cs[0] == '$';
        let skip = dollar || same_str(key.as_str(), "ProjectID") || same_str(key.as_str(), "Default")
            || same_str(key.as_str(), "Name") || same_str(key.as_str(), "Include") || same_str(
            key.as_str(),
            "Exclude",
        ) || same_str(key.as_str(), "Scripts") || !entry.is_object();
        let ghost prev = services@.map_values(|e: (String, Meta)| (e.0@, e.1@));
        if !skip {
            services.push((key.clone(), crate::project::meta::parse(entry)));
            assert(services@.map_values(|e: (String, Meta)| (e.0@, e.1@)) =~= prev.push(
                (key@, crate::project::meta::parse_spec(entry@)),
            ));
        }
        i = i + 1;
    }
    let name = match object.get("Name") {
        Some(v) => match v.as_str() {
            Some(s) => s.clone(),
            None => copy_str(folder),
        },
        None => copy_str(folder),
    };
    Config { id, name, default_parent, services, included, excluded, scripts }
}

/// The warnings reading the services of the first `n` manifest entries
/// gives, `origin` naming the manifest (see `warnings_spec`).
pub open spec fn services_warnings(es: Seq<(Seq<char>, JsonV)>, n: int, origin: Seq<char>) -> Seq<Seq<char>>
    decreases n,
{
    if n <= 0 || n > es.len() {
        Seq::empty()
    } else {
        let w = services_warnings(es, n - 1, origin);
        let k = es[n - 1].0;
        let e = es[n - 1].1;
        if (k.len() > 0 && k[0] == '$') || reserved(k) || !(e is Object) {
            w
        } else {
            w + crate::project::meta::warnings_spec(e, origin)
        }
    }
}

/// The warnings reading a manifest's services gives: none without a
/// manifest or where it is not an object.
pub open spec fn config_warnings_spec(manifest: Option<JsonV>, origin: Seq<char>) -> Seq<Seq<char>> {
    match manifest {
        Some(JsonV::Object(es)) => services_warnings(es, es.len() as int, origin),
        _ => Seq::empty(),
    }
}

/// The warnings reading the services of a manifest gives (see
/// `config_warnings_spec`); `origin` names the manifest.
pub fn config_warnings(manifest: Option<&Json>, origin: &str) -> (r: Vec<String>)
    ensures
        views(r@) == config_warnings_spec(
            match manifest {
                Some(m) => Some(m@),
                None => None,
            },
            origin@,
        ),
{
    let mut out: Vec<String> = Vec::new();
    let object = match manifest {
        Some(m) => match m.as_object() {
            Some(o) => o,
            None => return out,
        },
        None => return out,
    };
    proof {
        reveal_strlit("ProjectID");
        reveal_strlit("Default");
        reveal_strlit("Name");
        reveal_strlit("Include");
        reveal_strlit("Exclude");
        reveal_strlit("Scripts");
    }
    let ghost es = object@;
    let mut i: usize = 0;
    while i < object.len()
        invariant
            i <= es.len(),
            es == object@,
            views(out@) == services_warnings(es, i as int, origin@),
        decreases es.len() - i,
    {
        let key = object.key_at(i);
        let entry = object.value_at(i);
        let cs = chars_of(key.as_str());
        let dollar = cs.len() > 0 && cs[0] == '$';
        let skip = dollar || same_str(key.as_str(), "ProjectID") || same_str(key.as_str(), "Default")
            || same_str(key.as_str(), "Name") || same_str(key.as_str(), "Include") || same_str(
            key.as_str(),
            "Exclude",
        ) || same_str(key.as_str(), "Scripts") || !entry.is_object();
        if !skip {
            let more = crate::project::meta::warnings(entry, origin);
            let ghost prev = views(out@);
            let mut more = more;
            out.append(&mut more);
            assert(views(out@) =~= prev + crate::project::meta::warnings_spec(entry@, origin@));
        }
        i = i + 1;
    }
    out
}

/// The warnings the declarations of an instance file give where they ask
/// for a model without saying where it goes.
pub open spec fn model_warnings(ds: Seq<MetaV>, relative: Seq<char>) -> Seq<Seq<char>>
    decreases ds.len(),
{
    if ds.len() == 0 {
        Seq::empty()
    } else {
        let d = ds.last();
        model_warnings(ds.drop_last(), relative) + if !d.ignore && !blank_spec(d) && d.from_model is Some
            && split_spec(d.from_model->0).len() == 0 {
            seq![relative + ": $FromModel needs a path"@]
        } else {
            Seq::empty()
        }
    }
}

/// The warnings of `model_warnings` for the declarations read.
pub fn models_warned(declarations: &Vec<Meta>, relative: &str) -> (r: Vec<String>)
    ensures
        views(r@) == model_warnings(declarations@.map_values(|m: Meta| m@), relative@),
{
    let ghost ds = declarations@.map_values(|m: Meta| m@);
    let mut out: Vec<String> = Vec::new();
    let mut i: usize = 0;
    while i < declarations.len()
        invariant
            i <= declarations@.len(),
            ds == declarations@.map_values(|m: Meta| m@),
            views(out@) == model_warnings(ds.take(i as int), relative@),
        decreases declarations@.len() - i,
    {
        let d = &declarations[i];
        assert(ds.take(i + 1).drop_last() =~= ds.take(i as int));
        assert(ds.take(i + 1).last() == d@);
        if !d.ignore && !blank(d) {
            if let Some(target) = &d.from_model {
                let parts = split(target.as_str());
                if parts.len() == 0 {
                    let mut m = copy_str(relative);
                    push_str(&mut m, ": $FromModel needs a path");
                    let ghost prev = views(out@);
                    out.push(m);
                    assert(views(out@) =~= prev + seq![relative@ + ": $FromModel needs a path"@]);
                } else {
                    assert(views(out@) =~= views(out@) + Seq::<Seq<char>>::empty());
                }
            } else {
                assert(views(out@) =~= views(out@) + Seq::<Seq<char>>::empty());
            }
        } else {
            assert(views(out@) =~= views(out@) + Seq::<Seq<char>>::empty());
        }
        i = i + 1;
    }
    assert(ds.take(i as int) =~= ds);
    out
}

/// The instance a script file makes: a script named after the file, its
/// source the text sent for it.
pub open spec fn script_node_spec(stem: Seq<char>, class_name: Seq<char>, relative: Seq<char>, source: Seq<char>) -> NodeV {
    NodeV {
        properties: seq![("Source"@, JsonV::Text(source))],
        file_paths: seq![relative],
        ..fresh(Seq::empty(), stem, class_name, Ownership::Managed)
    }
}

/// The instance a script file makes (see `script_node_spec`).
pub fn script_node(stem: &str, script: Script, relative: &str, source: String) -> (r: Node)
    ensures
        r@ == script_node_spec(stem@, script_class(script), relative@, source@),
{
    let mut node = Node::new(String::new(), copy_str(stem), String::from_str(script.class_name()));
    node.properties.insert(String::from_str("Source"), Json::Text(source));
    let ghost prev = views(node.file_paths@);
    node.file_paths.push(copy_str(relative));
    assert(views(node.file_paths@) =~= seq![relative@]);
    node
}

/// What a text holds as JSON, `null` where it is not JSON.
pub open spec fn decoded_or_null(raw: Seq<char>) -> JsonV {
    match json_parsed(raw) {
        Some(v) => v,
        None => JsonV::Null,
    }
}

/// The instance a plain file makes by the built-in rules: a `StringValue`
/// holding the text, or a `ModuleScript` returning a JSON file's value;
/// nothing for other extensions.
pub open spec fn asset_node_spec(stem: Seq<char>, extension: Seq<char>, relative: Seq<char>, raw: Seq<char>) -> Option<NodeV> {
    match asset_class_spec(extension) {
        None => None,
        Some(class_name) => Some(
            NodeV {
                properties: if class_name == "ModuleScript"@ {
                    seq![
                        ("Source"@, JsonV::Text("return "@ + written(decoded_or_null(raw), 0) + seq!['\n'])),
                    ]
                } else {
                    seq![("Value"@, JsonV::Text(raw))]
                },
                file_paths: seq![relative],
                ..fresh(Seq::empty(), stem, class_name, Ownership::Managed)
            },
        ),
    }
}

/// The instance a plain file makes by the built-in rules.
pub fn asset_node(stem: &str, extension: &str, relative: &str, raw: &str) -> (r: Option<Node>)
    ensures
        match r {
            Some(n) => asset_node_spec(stem@, extension@, relative@, raw@) == Some(n@),
            None => asset_node_spec(stem@, extension@, relative@, raw@) is None,
        },
{
    let class_name = match asset_class(extension) {
        Some(c) => c,
        None => return None,
    };
    let mut node = Node::new(String::new(), copy_str(stem), String::from_str(class_name));
    if same_str(class_name, "ModuleScript") {
        let decoded = match parse_json(raw) {
            Some(v) => v,
            None => Json::Null,
        };
        node.properties.insert(String::from_str("Source"), Json::Text(module(&decoded)));
    } else {
        node.properties.insert(String::from_str("Value"), Json::Text(copy_str(raw)));
    }
    node.file_paths.push(copy_str(relative));
    assert(views(node.file_paths@) =~= seq![relative@]);
    Some(node)
}

/// The instance a transform made of a file, before it is placed.
pub open spec fn loaded_node_spec(l: LoadedV, stem: Seq<char>, relative: Seq<char>) -> NodeV {
    stamped(
        NodeV {
            properties: l.properties,
            attributes: l.attributes,
            tags: l.tags,
            children: l.children,
            ..fresh(
                Seq::empty(),
                match l.name {
                    Some(n) => n,
                    None => stem,
                },
                match l.class_name {
                    Some(c) => c,
                    None => "StringValue"@,
                },
                Ownership::Managed,
            )
        },
        relative,
    )
}

/// The nodes and the hoisted nodes a sequence of instances makes: each
/// with a parent goes to the hoisted ones, the others stay, skipped ones
/// go nowhere.
pub open spec fn loaded_spec(ls: Seq<LoadedV>, stem: Seq<char>, relative: Seq<char>) -> (Seq<NodeV>, Seq<(Seq<char>, NodeV)>)
    decreases ls.len(),
{
    if ls.len() == 0 {
        (Seq::empty(), Seq::empty())
    } else {
        let (ns, hs) = loaded_spec(ls.drop_last(), stem, relative);
        let l = ls.last();
        if l.skip {
            (ns, hs)
        } else {
            let n = loaded_node_spec(l, stem, relative);
            match l.parent {
                Some(p) => (ns, hs.push((p, n))),
                None => (ns.push(n), hs),
            }
        }
    }
}

/// The views of a sequence of hoisted nodes.
pub open spec fn hoisted_views(s: Seq<(String, Node)>) -> Seq<(Seq<char>, NodeV)> {
    s.map_values(|e: (String, Node)| (e.0@, e.1@))
}

/// The nodes and hoisted nodes a transform's instances make.
pub fn loaded_nodes(produced: Vec<Loaded>, stem: &str, relative: &str) -> (r: (Vec<Node>, Vec<(String, Node)>))
    ensures
        (node_views(r.0@), hoisted_views(r.1@)) == loaded_spec(
            produced@.map_values(|l: Loaded| l@),
            stem@,
            relative@,
        ),
{
    broadcast use lemma_node_view_children;

    let ghost all = produced@;
    let ghost ls = all.map_values(|l: Loaded| l@);
    let mut produced = produced;
    let total = produced.len();
    let mut nodes: Vec<Node> = Vec::new();
    let mut hoisted: Vec<(String, Node)> = Vec::new();
    let mut i: usize = 0;
    assert(all.skip(0) =~= all);
    while produced.len() > 0
        invariant
            i + produced@.len() == all.len(),
            all.len() == total,
            produced@ == all.skip(i as int),
            ls == all.map_values(|l: Loaded| l@),
            (node_views(nodes@), hoisted_views(hoisted@)) == loaded_spec(ls.take(i as int), stem@, relative@),
        decreases produced@.len(),
    {
        let loaded = produced.remove(0);
        let ghost lv = loaded@;
        assert(loaded == all[i as int]);
        proof {
            assert(ls.take(i + 1).drop_last() =~= ls.take(i as int));
            assert(ls.take(i + 1).last() == loaded@);
            assert(produced@ =~= all.skip(i + 1));
        }
        if !loaded.skip {
            let name = match loaded.name {
                Some(n) => n,
                None => copy_str(stem),
            };
            let class_name = match loaded.class_name {
                Some(c) => c,
                None => String::from_str("StringValue"),
            };
            let mut node = Node::new(String::new(), name, class_name);
            node.properties = loaded.properties;
            node.attributes = loaded.attributes;
            node.tags = loaded.tags;
            node.children = loaded.children;
            assert(node@.properties == lv.properties);
            assert(node@.attributes == lv.attributes);
            assert(node@.tags == lv.tags);
            assert(node@.children == lv.children);
            assert(node@.name == match lv.name { Some(n) => n, None => stem@ });
            assert(node@.class_name == match lv.class_name { Some(n) => n, None => "StringValue"@ });
            assert(node@ =~= (NodeV {
                properties: lv.properties,
                attributes: lv.attributes,
                tags: lv.tags,
                children: lv.children,
                ..fresh(
                    Seq::empty(),
                    match lv.name {
                        Some(n) => n,
                        None => stem@,
                    },
                    match lv.class_name {
                        Some(c) => c,
                        None => "StringValue"@,
                    },
                    Ownership::Managed,
                )
            }));
            stamp(&mut node, relative);
            let ghost n = node@;
            match loaded.parent {
                Some(p) => {
                    let ghost prev = hoisted_views(hoisted@);
                    hoisted.push((p, node));
                    assert(hoisted_views(hoisted@) =~= prev.push((lv.parent->0, n)));
                },
                None => {
                    let ghost prev = node_views(nodes@);
                    nodes.push(node);
                    assert(node_views(nodes@) =~= prev.push(n));
                },
            }
        }
        i = i + 1;
    }
    assert(ls.take(i as int) =~= ls);
    (nodes, hoisted)
}

/// The model a `$FromModel` declaration refers to, with the path of its
/// parent; nothing where the declaration gives no path.
pub open spec fn reference_spec(d: MetaV, relative: Seq<char>) -> Option<(Seq<char>, NodeV)> {
    let parts = split_spec(
        match d.from_model {
            Some(t) => t,
            None => Seq::empty(),
        },
    );
    if parts.len() == 0 {
        None
    } else {
        Some(
            (
                joined(parts.drop_last(), seq!['/']),
                declared_node(
                    NodeV {
                        file_paths: seq![relative],
                        ..fresh(
                            Seq::empty(),
                            parts.last(),
                            match d.class_name {
                                Some(c) => c,
                                None => "Model"@,
                            },
                            Ownership::Reference,
                        )
                    },
                    d,
                ),
            ),
        )
    }
}

/// The nodes and hoisted nodes the declarations of an instance file make:
/// ignored and empty ones nothing, models a reference to hoist, the others
/// a node named by the declaration or the file, hoisted when given a parent.
pub open spec fn instances_spec(ds: Seq<MetaV>, stem: Seq<char>, relative: Seq<char>) -> (Seq<NodeV>, Seq<(Seq<char>, NodeV)>)
    decreases ds.len(),
{
    if ds.len() == 0 {
        (Seq::empty(), Seq::empty())
    } else {
        let (ns, hs) = instances_spec(ds.drop_last(), stem, relative);
        let d = ds.last();
        if d.ignore || blank_spec(d) {
            (ns, hs)
        } else if d.from_model is Some {
            match reference_spec(d, relative) {
                Some(e) => (ns, hs.push(e)),
                None => (ns, hs),
            }
        } else {
            let n = declared_node(
                NodeV {
                    file_paths: seq![relative],
                    ..fresh(
                        Seq::empty(),
                        match d.name {
                            Some(x) => x,
                            None => stem,
                        },
                        class_or_folder(d.class_name),
                        Ownership::Managed,
                    )
                },
                d,
            );
            match d.parent {
                Some(p) => (ns, hs.push((p, n))),
                None => (ns.push(n), hs),
            }
        }
    }
}

/// The model a `$FromModel` declaration refers to (see `reference_spec`).
fn reference(declared: &Meta, relative: &str) -> (r: Option<(String, Node)>)
    ensures
        match r {
            Some(e) => reference_spec(declared@, relative@) == Some((e.0@, e.1@)),
            None => reference_spec(declared@, relative@) is None,
        },
{
    let target = match &declared.from_model {
        Some(t) => t.clone(),
        None => String::new(),
    };
    let parts = split(target.as_str());
    if parts.len() == 0 {
        return None;
    }
    let last = parts.len() - 1;
    let mut parent: Vec<String> = Vec::new();
    let mut i: usize = 0;
    while i < last
        invariant
            i <= last,
            last + 1 == parts@.len(),
            views(parent@) == views(parts@).take(i as int),
        decreases last - i,
    {
        let ghost prev = views(parent@);
        parent.push(parts[i].clone());
        assert(views(parent@) =~= prev.push(parts@[i as int]@));
        assert(views(parts@).take(i + 1) =~= views(parts@).take(i as int).push(parts@[i as int]@));
        i = i + 1;
    }
    assert(views(parts@).take(last as int) =~= views(parts@).drop_last());
    let class_name = match &declared.class_name {
        Some(c) => c.clone(),
        None => String::from_str("Model"),
    };
    let mut node = Node::new(String::new(), parts[last].clone(), class_name);
    node.ownership = Ownership::Reference;
    node.file_paths.push(copy_str(relative));
    assert(views(node.file_paths@) =~= seq![relative@]);
    apply_declaration(&mut node, declared);
    Some((join(parent.as_slice()), node))
}

/// The nodes and hoisted nodes the declarations of an instance file make
/// (see `instances_spec`).
pub fn instance_nodes(declarations: &Vec<Meta>, stem: &str, relative: &str) -> (r: (Vec<Node>, Vec<(String, Node)>))
    ensures
        (node_views(r.0@), hoisted_views(r.1@)) == instances_spec(
            declarations@.map_values(|m: Meta| m@),
            stem@,
            relative@,
        ),
{
    let ghost ds = declarations@.map_values(|m: Meta| m@);
    let mut nodes: Vec<Node> = Vec::new();
    let mut hoisted: Vec<(String, Node)> = Vec::new();
    let mut i: usize = 0;
    while i < declarations.len()
        invariant
            i <= declarations@.len(),
            ds == declarations@.map_values(|m: Meta| m@),
            (node_views(nodes@), hoisted_views(hoisted@)) == instances_spec(ds.take(i as int), stem@, relative@),
        decreases declarations@.len() - i,
    {
        let declared = &declarations[i];
        proof {
            assert(ds.take(i + 1).drop_last() =~= ds.take(i as int));
            assert(ds.take(i + 1).last() == declared@);
        }
        if !declared.ignore && !blank(declared) {
            if declared.from_model.is_some() {
                match reference(declared, relative) {
                    Some(e) => {
                        let ghost ev = (e.0@, e.1@);
                        let ghost prev = hoisted_views(hoisted@);
                        hoisted.push(e);
                        assert(hoisted_views(hoisted@) =~= prev.push(ev));
                    },
                    None => {},
                }
            } else {
                let name = match &declared.name {
                    Some(x) => x.clone(),
                    None => copy_str(stem),
                };
                let mut node = Node::new(String::new(), name, class_or_folder_of(&declared.class_name));
                node.file_paths.push(copy_str(relative));
                assert(views(node.file_paths@) =~= seq![relative@]);
                apply_declaration(&mut node, declared);
                let ghost n = node@;
                match &declared.parent {
                    Some(p) => {
                        let ghost prev = hoisted_views(hoisted@);
                        hoisted.push((p.clone(), node));
                        assert(hoisted_views(hoisted@) =~= prev.push((p@, n)));
                    },
                    None => {
                        let ghost prev = node_views(nodes@);
                        nodes.push(node);
                        assert(node_views(nodes@) =~= prev.push(n));
                    },
                }
            }
        }
        i = i + 1;
    }
    assert(ds.take(i as int) =~= ds);
    (nodes, hoisted)
}

/// The positions of `names`, ordered so that the names ascend; names that
/// are equal keep their order.
pub fn name_order(names: &Vec<String>) -> (r: Vec<usize>)
    ensures
        r@.len() == names@.len(),
        forall|i: int| 0 <= i < r@.len() ==> #[trigger] r@[i] < names@.len(),
        forall|i: int, j: int| 0 <= i < j < r@.len() ==> #[trigger] r@[i] != #[trigger] r@[j],
        forall|i: int, j: int|
            0 <= i < j < r@.len() ==> !str_lt(
                #[trigger] names@[r@[j] as int]@,
                #[trigger] names@[r@[i] as int]@,
            ),
{
    let mut out: Vec<usize> = Vec::new();
    let mut k: usize = 0;
    while k < names.len()
        invariant
            k <= names@.len(),
            out@.len() == k,
            forall|i: int| 0 <= i < out@.len() ==> #[trigger] out@[i] < k,
            forall|i: int, j: int| 0 <= i < j < out@.len() ==> #[trigger] out@[i] != #[trigger] out@[j],
            forall|i: int, j: int|
                0 <= i < j < out@.len() ==> !str_lt(
                    #[trigger] names@[out@[j] as int]@,
                    #[trigger] names@[out@[i] as int]@,
                ),
        decreases names@.len() - k,
    {
        let mut p: usize = 0;
        while p < out.len() && compare_str(names[k].as_str(), names[out[p]].as_str()) >= 0
            invariant
                p <= out@.len(),
                k < names@.len(),
                forall|i: int| 0 <= i < out@.len() ==> #[trigger] out@[i] < k,
                forall|q: int| 0 <= q < p ==> !str_lt(names@[k as int]@, #[trigger] names@[out@[q] as int]@),
            decreases out@.len() - p,
        {
            p = p + 1;
        }
        let ghost before = out@;
        out.insert(p, k);
        proof {
            assert(out@ == before.insert(p as int, k));
            assert forall|i: int, j: int| 0 <= i < j < out@.len() implies !str_lt(
                #[trigger] names@[out@[j] as int]@,
                #[trigger] names@[out@[i] as int]@,
            ) by {
                if j == p {
                    assert(out@[i] == before[i]);
                } else if i == p {
                    assert(out@[j] == before[j - 1]);
                    assert(p < before.len());
                    assert(str_lt(names@[k as int]@, names@[before[p as int] as int]@));
                    if p as int != j - 1 {
                        assert(!str_lt(names@[before[j - 1] as int]@, names@[before[p as int] as int]@));
                    }
                    if str_lt(names@[before[j - 1] as int]@, names@[k as int]@) {
                        lemma_str_lt_transitive(
                            names@[before[j - 1] as int]@,
                            names@[k as int]@,
                            names@[before[p as int] as int]@,
                        );
                        if p as int == j - 1 {
                            lemma_str_lt_irreflexive(names@[before[p as int] as int]@);
                        }
                    }
                } else {
                    let bi = if i < p { i } else { i - 1 };
                    let bj = if j < p { j } else { j - 1 };
                    assert(out@[i] == before[bi]);
                    assert(out@[j] == before[bj]);
                }
            }
            assert forall|i: int, j: int| 0 <= i < j < out@.len() implies #[trigger] out@[i] != #[trigger] out@[j] by {
                if i != p && j != p {
                    let bi = if i < p { i } else { i - 1 };
                    let bj = if j < p { j } else { j - 1 };
                    assert(out@[i] == before[bi]);
                    assert(out@[j] == before[bj]);
                } else if i == p {
                    assert(out@[j] == before[j - 1]);
                } else {
                    assert(out@[i] == before[i]);
                }
            }
            assert forall|i: int| 0 <= i < out@.len() implies #[trigger] out@[i] < k + 1 by {
                if i < p {
                    assert(out@[i] == before[i]);
                } else if i > p {
                    assert(out@[i] == before[i - 1]);
                }
            }
        }
        k = k + 1;
    }
    out
}

/// A file as read from disk: its name, and its text or why it could not
/// be read.
#[derive(Debug)]
pub struct FileEntry {
    pub name: String,
    pub text: Result<String, String>,
}

/// A folder as read from disk, with what it holds.
#[derive(Debug)]
pub struct Folder {
    pub name: String,
    pub folders: Vec<Folder>,
    pub files: Vec<FileEntry>,
}

/// What a `$Path` of the manifest points at. `base` is its path as seen
/// from the project folder; `alias` names the top-level folder of the
/// project that is the same folder, where one is.
#[derive(Debug)]
pub enum Mount {
    Dir { folder: Folder, base: String, alias: Option<String> },
    File { file: FileEntry, base: String },
    Missing,
}

/// An entry of a folder that is never synced: hidden ones, build output,
/// and at the top the sourcemap and the Cargo files.
pub open spec fn skipped_spec(name: Seq<char>, top: bool) -> bool {
    (name.len() > 0 && name[0] == '.') || name == "target"@ || name == "node_modules"@ || (top && (
    name == "sourcemap.json"@ || name == "Cargo.toml"@ || name == "Cargo.lock"@))
}

/// Whether the entry `name` of a folder is never synced.
pub fn skipped(name: &str, top: bool) -> (r: bool)
    ensures
        r == skipped_spec(name@, top),
{
    let cs = chars_of(name);
    (cs.len() > 0 && cs[0] == '.') || same_str(name, "target") || same_str(name, "node_modules")
        || (top && (same_str(name, "sourcemap.json") || same_str(name, "Cargo.toml") || same_str(
        name,
        "Cargo.lock",
    )))
}

/// The message for a failure at `relative`.
pub open spec fn failure(relative: Seq<char>, message: Seq<char>) -> Seq<char> {
    relative + ": "@ + message
}

fn fail_at(relative: &str, message: &str) -> (r: String)
    ensures
        r@ == failure(relative@, message@),
{
    let mut out = copy_str(relative);
    push_str(&mut out, ": ");
    push_str(&mut out, message);
    out
}

/// The value a declaration file holds, or why it cannot be had.
fn read_value(file: &FileEntry, relative: &str) -> (r: Result<Json, String>)
    ensures
        match file.text {
            Err(e) => r matches Err(m) && m@ == failure(relative@, e@),
            Ok(t) => match decoded(t@) {
                Some(v) => r matches Ok(j) && j@ == v,
                None => r is Err,
            },
        },
{
    match &file.text {
        Err(e) => Err(fail_at(relative, e.as_str())),
        Ok(t) => match decode(t.as_str()) {
            Some(v) => Ok(v),
            None => Err(fail_at(relative, "not valid JSON")),
        },
    }
}

/// The file of `dir` named `name`, if any.
fn file_named<'a>(dir: &'a Folder, name: &str) -> (r: Option<&'a FileEntry>)
    ensures
        r matches Some(f) ==> f.name@ == name@ && has_file(*dir, name@),
        r is None ==> !has_file(*dir, name@),
        r matches Some(f) ==> named(*dir, name@) == Some(*f),
        r is None ==> named(*dir, name@) is None,
{
    let mut i: usize = 0;
    while i < dir.files.len()
        invariant
            i <= dir.files@.len(),
            forall|k: int| 0 <= k < i ==> (#[trigger] dir.files@[k]).name@ != name@,
            file_from(*dir, name@, 0) == file_from(*dir, name@, i as int),
        decreases dir.files@.len() - i,
    {
        if same_str(dir.files[i].name.as_str(), name) {
            assert(dir.files@[i as int].name@ == name@);
            return Some(&dir.files[i]);
        }
        assert(file_from(*dir, name@, i as int) == file_from(*dir, name@, i + 1));
        i = i + 1;
    }
    None
}

/// Whether a folder read from disk holds a file named `name`.
pub open spec fn has_file(dir: Folder, name: Seq<char>) -> bool {
    exists|j: int| 0 <= j < dir.files@.len() && (#[trigger] dir.files@[j]).name@ == name
}

/// The name of the init script a folder is looked for in at place `i`.
pub open spec fn candidate_name(i: int) -> Seq<char> {
    if i == 0 {
        "init.server.luau"@
    } else if i == 1 {
        "init.server.lua"@
    } else if i == 2 {
        "init.client.luau"@
    } else if i == 3 {
        "init.client.lua"@
    } else if i == 4 {
        "init.luau"@
    } else {
        "init.lua"@
    }
}

/// The kind of script the init script at place `i` makes.
pub open spec fn candidate_script(i: int) -> Script {
    if i <= 1 {
        Script::Server
    } else if i <= 3 {
        Script::Client
    } else {
        Script::Module
    }
}

/// The script the first init script a folder holds, from place `i` on,
/// makes it.
pub open spec fn init_from(dir: Folder, i: int) -> Option<Script>
    decreases 6 - i,
{
    if i < 0 || i >= 6 {
        None
    } else if has_file(dir, candidate_name(i)) {
        Some(candidate_script(i))
    } else {
        init_from(dir, i + 1)
    }
}

/// The script a folder becomes: that of its first init script, in the
/// order server, client, module, `.luau` before `.lua`.
pub open spec fn init_script_of(dir: Folder) -> Option<Script> {
    init_from(dir, 0)
}

/// The place of the first init script a folder holds, from place `i` on;
/// 6 where it holds none.
pub open spec fn init_at(dir: Folder, i: int) -> int
    decreases 6 - i,
{
    if i < 0 || i >= 6 {
        6
    } else if has_file(dir, candidate_name(i)) {
        i
    } else {
        init_at(dir, i + 1)
    }
}

/// The first file of `dir` named `name`, looking from place `i` on.
pub open spec fn file_from(dir: Folder, name: Seq<char>, i: int) -> Option<FileEntry>
    decreases dir.files@.len() - i,
{
    if i < 0 || i >= dir.files@.len() {
        None
    } else if dir.files@[i].name@ == name {
        Some(dir.files@[i])
    } else {
        file_from(dir, name, i + 1)
    }
}

/// The first file of `dir` named `name`.
pub open spec fn named(dir: Folder, name: Seq<char>) -> Option<FileEntry> {
    file_from(dir, name, 0)
}

/// A declaration file that can be read: its text is there and is JSON.
pub open spec fn readable(f: FileEntry) -> bool {
    f.text matches Ok(t) && decoded(t@) is Some
}

/// What a folder's `init.meta.json` declares, nothing where it has none.
pub open spec fn init_decl(dir: Folder) -> MetaV {
    match named(dir, "init.meta.json"@) {
        Some(f) => match f.text {
            Ok(t) => match decoded(t@) {
                Some(v) => parse_spec(v),
                None => blank_meta(),
            },
            Err(_) => blank_meta(),
        },
        None => blank_meta(),
    }
}

/// A file that makes nodes without the transform being asked: neither a
/// script nor an asset, and readable where it is an instance file.
pub open spec fn counted_ok(f: FileEntry) -> bool {
    match classify_spec(f.name@).0 {
        KindV::Script(_) => false,
        KindV::Asset(_) => false,
        KindV::Instance => readable(f),
        _ => true,
    }
}

/// A file of a folder scanned at the top (`top`) or below that can fail
/// nothing: its sidecar readable, and where it makes nodes, `counted_ok`.
pub open spec fn entry_ok(f: FileEntry, top: bool) -> bool {
    !skipped_spec(f.name@, top) ==> ((classify_spec(f.name@).0 is Sidecar ==> readable(f)) && ((!top
        || eq_ignore_case(f.name@, "meta.inst.json"@)) ==> counted_ok(f)))
}

/// Whether a subfolder is scanned: not skipped, and at the top not the
/// hook scripts and holding an `init.meta.json`.
pub open spec fn considered(sub: Folder, top: bool) -> bool {
    !skipped_spec(sub.name@, top) && (top ==> (sub.name@ != "scripts"@ && has_file(sub, "init.meta.json"@)))
}

/// A folder that scans without the transform being asked and without a
/// file that cannot be read: no init script, a readable `init.meta.json`
/// where it has one, and entries that can fail nothing.
pub open spec fn folder_ok(dir: Folder) -> bool
    decreases dir, 2int, 0int,
{
    &&& init_script_of(dir) is None
    &&& (named(dir, "init.meta.json"@) matches Some(f) ==> readable(f))
    &&& dir_ok(dir, false)
}

/// The entries of a folder, scanned at the top (`top`) or below, can fail
/// nothing.
pub open spec fn dir_ok(dir: Folder, top: bool) -> bool
    decreases dir, 1int, 0int,
{
    &&& forall|i: int| 0 <= i < dir.files@.len() ==> entry_ok(#[trigger] dir.files@[i], top)
    &&& folders_ok(dir, top, dir.folders@.len() as int)
}

/// Each of the first `k` subfolders of `dir` that is scanned is `folder_ok`.
pub open spec fn folders_ok(dir: Folder, top: bool, k: int) -> bool
    decreases dir, 0int, k,
{
    if k <= 0 || k > dir.folders@.len() {
        true
    } else {
        proof {
            assert(decreases_to!(dir => dir.folders@[k - 1]));
        }
        folders_ok(dir, top, k - 1) && (considered(dir.folders@[k - 1], top) ==> folder_ok(dir.folders@[k - 1]))
    }
}

/// A mount whose scan can fail nothing.
pub open spec fn mount_ok(m: Mount) -> bool {
    match m {
        Mount::Dir { folder, .. } => folder_ok(folder),
        Mount::File { file, .. } => counted_ok(file),
        Mount::Missing => true,
    }
}

/// What `target` names among `mounts`, looking from place `i` on.
pub open spec fn mount_from(mounts: Seq<(String, Mount)>, target: Seq<char>, i: int) -> Option<Mount>
    decreases mounts.len() - i,
{
    if i < 0 || i >= mounts.len() {
        None
    } else if mounts[i].0@ == target {
        Some(mounts[i].1)
    } else {
        mount_from(mounts, target, i + 1)
    }
}

/// What `target` names among `mounts`: the first mount read for it.
pub open spec fn mount_for(mounts: Seq<(String, Mount)>, target: Seq<char>) -> Option<Mount> {
    mount_from(mounts, target, 0)
}

/// The nodes an instance file makes, none where it cannot be read.
pub open spec fn instance_nodes_of(f: FileEntry, stem: Seq<char>, relative: Seq<char>) -> Seq<NodeV> {
    match f.text {
        Ok(t) => match decoded(t@) {
            Some(v) => instances_spec(parse_many_spec(v), stem, relative).0,
            None => Seq::empty(),
        },
        Err(_) => Seq::empty(),
    }
}

/// What a mounted folder gives: nothing where its `init.meta.json` says
/// to ignore it, else a node named as that declaration says.
pub open spec fn folder_gives(folder: Folder, name: Seq<char>, r: Result<Option<Node>, String>) -> bool {
    &&& folder_ok(folder) ==> r is Ok
    &&& r matches Ok(o) ==> (o is None <==> init_decl(folder).ignore)
    &&& r matches Ok(Some(n)) ==> n@.name == declared_name(name, init_decl(folder))
}

/// What a mounted file gives: the first node it makes, named `name`;
/// a script always makes one, an instance file the first of its
/// instances, a file of any other kind but an asset nothing.
pub open spec fn file_gives(file: FileEntry, base: Seq<char>, name: Seq<char>, r: Result<Option<Node>, String>) -> bool {
    let kind = classify_spec(file.name@).0;
    &&& counted_ok(file) ==> r is Ok
    &&& r matches Ok(Some(n)) ==> n@.name == name
    &&& kind is Script ==> (r matches Ok(o) ==> o is Some)
    &&& (kind is Instance && readable(file)) ==> (r matches Ok(o) && (o is Some <==> instance_nodes_of(
        file,
        name,
        base,
    ).len() > 0))
    &&& !(kind is Script || kind is Instance || kind is Asset) ==> r matches Ok(None)
}

/// The text of a file, empty where it could not be read.
pub open spec fn raw_text(f: FileEntry) -> Seq<char> {
    match f.text {
        Ok(t) => t@,
        Err(_) => Seq::empty(),
    }
}

/// The nodes the built-in rules make of an asset file: one, or none for
/// an extension they do not know.
pub open spec fn asset_nodes(stem: Seq<char>, extension: Seq<char>, relative: Seq<char>, raw: Seq<char>) -> Seq<NodeV> {
    match asset_node_spec(stem, extension, relative, raw) {
        Some(n) => seq![n],
        None => Seq::empty(),
    }
}

/// The last part of a service's path, empty where it has none.
pub open spec fn last_part(path: Seq<char>) -> Seq<char> {
    let p = split_spec(path);
    if p.len() > 0 {
        p.last()
    } else {
        Seq::empty()
    }
}

proof fn lemma_folders_ok_at(dir: Folder, top: bool, k: int, j: int)
    requires
        folders_ok(dir, top, k),
        0 <= j < k <= dir.folders@.len(),
        considered(dir.folders@[j], top),
    ensures
        folder_ok(dir.folders@[j]),
    decreases k,
{
    if j < k - 1 {
        lemma_folders_ok_at(dir, top, k - 1, j);
    }
}

proof fn lemma_mount_from_in(mounts: Seq<(String, Mount)>, target: Seq<char>, i: int)
    requires
        0 <= i,
    ensures
        mount_from(mounts, target, i) matches Some(m) ==> exists|k: int|
            i <= k < mounts.len() && (#[trigger] mounts[k]).1 == m,
    decreases mounts.len() - i,
{
    if i < mounts.len() && mounts[i].0@ != target {
        lemma_mount_from_in(mounts, target, i + 1);
    }
}

/// Attaching nodes changes only the children.
pub proof fn lemma_attach_all_keeps(t: NodeV, cs: Seq<NodeV>)
    ensures
        attach_all(t, cs) == (NodeV { children: attach_all(t, cs).children, ..t }),
    decreases cs.len(),
{
    if cs.len() > 0 {
        lemma_attach_all_keeps(t, cs.drop_last());
        let x = attach_all(t, cs.drop_last());
        assert(attached(x, cs.last()) =~= (NodeV { children: attached(x, cs.last()).children, ..x }));
    }
    assert(attach_all(t, cs) =~= (NodeV { children: attach_all(t, cs).children, ..t }));
}

/// Attaching a node keeps every path of names the slot had, and leads
/// the node's name down from the slot.
pub proof fn lemma_attached_paths(slot: NodeV, n: NodeV)
    ensures
        keeps_paths(slot, attached(slot, n)),
        has_path(attached(slot, n), seq![n.name]),
        attached(slot, n).name == slot.name,
    decreases node_size(n), 2int,
{
    lemma_first_named(slot.children, n.name);
    let r = attached(slot, n);
    let one: Seq<Seq<char>> = seq![n.name];
    assert(one.drop_first() =~= Seq::<Seq<char>>::empty());
    match first_named(slot.children, n.name) {
        Some(i) => {
            let m = merged(slot.children[i], n);
            lemma_merged_paths(slot.children[i], n);
            assert(r.children[i] == m);
            assert(has_path(m, one.drop_first()));
            assert(has_path(r, one));
            assert forall|q: Seq<Seq<char>>| #[trigger] has_path(slot, q) implies has_path(r, q) by {
                if q.len() > 0 {
                    let j = choose|j: int|
                        0 <= j < slot.children.len() && (#[trigger] slot.children[j]).name == q[0]
                            && has_path(slot.children[j], q.drop_first());
                    if j == i {
                        assert(has_path(m, q.drop_first()));
                        assert(r.children[j] == m);
                    } else {
                        assert(r.children[j] == slot.children[j]);
                    }
                }
            }
        },
        None => {
            let k = slot.children.len() as int;
            assert(r.children[k] == n);
            assert(has_path(n, one.drop_first()));
            assert(has_path(r, one));
            assert forall|q: Seq<Seq<char>>| #[trigger] has_path(slot, q) implies has_path(r, q) by {
                if q.len() > 0 {
                    let j = choose|j: int|
                        0 <= j < slot.children.len() && (#[trigger] slot.children[j]).name == q[0]
                            && has_path(slot.children[j], q.drop_first());
                    assert(r.children[j] == slot.children[j]);
                }
            }
        },
    }
}

/// Merging a node into another keeps the other's name and every path of
/// names it had.
pub proof fn lemma_merged_paths(t: NodeV, inc: NodeV)
    ensures
        keeps_paths(t, merged(t, inc)),
        merged(t, inc).name == t.name,
    decreases node_size(inc), 1int,
{
    let t1 = NodeV {
        class_name: if inc.class_name != "Folder"@ {
            inc.class_name
        } else {
            t.class_name
        },
        ownership: if inc.ownership == Ownership::Managed {
            Ownership::Managed
        } else {
            t.ownership
        },
        properties: insert_all(t.properties, inc.properties),
        attributes: insert_all(t.attributes, inc.attributes),
        tags: added_to(t.tags, inc.tags),
        file_paths: added_to(t.file_paths, inc.file_paths),
        ..t
    };
    assert(merged(t, inc) == attach_all(t1, inc.children));
    lemma_same_children_paths(t, t1);
    lemma_attach_all_paths(t1, inc.children);
    lemma_keeps_paths_trans(t, t1, merged(t, inc));
    lemma_attach_all_keeps(t1, inc.children);
}

/// Attaching nodes one by one keeps every path of names the slot had.
pub proof fn lemma_attach_all_paths(t: NodeV, cs: Seq<NodeV>)
    ensures
        keeps_paths(t, attach_all(t, cs)),
    decreases forest_size(cs), 3int,
{
    if cs.len() == 0 {
        lemma_same_children_paths(t, t);
    } else {
        lemma_tree_smaller(cs, cs.len() - 1);
        let x = attach_all(t, cs.drop_last());
        lemma_attach_all_paths(t, cs.drop_last());
        lemma_attached_paths(x, cs.last());
        lemma_keeps_paths_trans(t, x, attach_all(t, cs));
    }
}

/// The name a child declared under `key` ends up with: the one its
/// declaration gives, else the key.
pub open spec fn declared_name(key: Seq<char>, d: MetaV) -> Seq<char> {
    match d.name {
        Some(x) => x,
        None => key,
    }
}

/// Each of the first `n` services of `svcs` is in `t` at the path its name
/// gives, and so is each child it declares that is not ignored, under the
/// name its declaration gives.
pub open spec fn services_in(t: NodeV, svcs: Seq<(Seq<char>, MetaV)>, n: int) -> bool {
    &&& forall|s: int| 0 <= s < n ==> has_path(t, split_spec(#[trigger] svcs[s].0))
    &&& forall|s: int, c: int|
        0 <= s < n && 0 <= c < svcs[s].1.children.len() && !(#[trigger] svcs[s].1.children[c]).1.ignore
            ==> has_path(
            t,
            split_spec(svcs[s].0).push(declared_name(svcs[s].1.children[c].0, svcs[s].1.children[c].1)),
        )
}

/// What keeps every path keeps the services in place.
proof fn lemma_services_kept(a: NodeV, b: NodeV, svcs: Seq<(Seq<char>, MetaV)>, n: int)
    requires
        services_in(a, svcs, n),
        keeps_paths(a, b),
    ensures
        services_in(b, svcs, n),
{
    assert forall|s: int| 0 <= s < n implies has_path(b, split_spec(#[trigger] svcs[s].0)) by {
        assert(has_path(a, split_spec(svcs[s].0)));
    }
    assert forall|s: int, c: int|
        0 <= s < n && 0 <= c < svcs[s].1.children.len() && !(#[trigger] svcs[s].1.children[c]).1.ignore
            implies has_path(
            b,
            split_spec(svcs[s].0).push(declared_name(svcs[s].1.children[c].0, svcs[s].1.children[c].1)),
        ) by {
        assert(has_path(
            a,
            split_spec(svcs[s].0).push(declared_name(svcs[s].1.children[c].0, svcs[s].1.children[c].1)),
        ));
    }
}

/// Sorting the tree and setting its ids keeps the services in place.
proof fn lemma_services_sorted(v: NodeV, svcs: Seq<(Seq<char>, MetaV)>, n: int)
    requires
        services_in(v, svcs, n),
    ensures
        services_in(reindexed_root(sorted_tree(v)), svcs, n),
{
    let t = reindexed_root(sorted_tree(v));
    assert forall|s: int| 0 <= s < n implies has_path(t, split_spec(#[trigger] svcs[s].0)) by {
        law_sort_reindex_keeps_paths(v, split_spec(svcs[s].0));
    }
    assert forall|s: int, c: int|
        0 <= s < n && 0 <= c < svcs[s].1.children.len() && !(#[trigger] svcs[s].1.children[c]).1.ignore
            implies has_path(
            t,
            split_spec(svcs[s].0).push(declared_name(svcs[s].1.children[c].0, svcs[s].1.children[c].1)),
        ) by {
        law_sort_reindex_keeps_paths(
            v,
            split_spec(svcs[s].0).push(declared_name(svcs[s].1.children[c].0, svcs[s].1.children[c].1)),
        );
    }
}

/// Attaching declared children never renames the node.
proof fn lemma_declared_children_name(n: NodeV, d: MetaV, k: int)
    ensures
        declared_children(n, d, k).name == n.name,
    decreases d, k,
{
    if 0 < k <= d.children.len() {
        lemma_declared_children_name(n, d, k - 1);
        let child = d.children[k - 1].1;
        if !child.ignore {
            let m = declared_children(n, d, k - 1);
            assert(decreases_to!(d => d.children[k - 1].1));
            lemma_attached_paths(
                m,
                declared_node(fresh(Seq::empty(), d.children[k - 1].0, class_or_folder(child.class_name), m.ownership), child),
            );
        }
    }
}

/// Attaching declared children never changes the node's properties.
proof fn lemma_declared_children_props(n: NodeV, d: MetaV, k: int)
    ensures
        declared_children(n, d, k).properties == n.properties,
    decreases d, k,
{
    if 0 < k <= d.children.len() {
        lemma_declared_children_props(n, d, k - 1);
    }
}

/// A node with a declaration applied holds the properties it declares
/// over its own.
pub proof fn lemma_declared_node_props(n: NodeV, d: MetaV)
    ensures
        declared_node(n, d).properties == insert_all(n.properties, d.properties),
{
    let a = applied(n, d);
    let b = match d.name {
        Some(x) => NodeV { name: x, ..a },
        None => a,
    };
    let c = if d.from_model is Some {
        NodeV { ownership: Ownership::Reference, ..b }
    } else {
        b
    };
    lemma_declared_children_props(c, d, d.children.len() as int);
}

/// A node with a declaration applied takes the name it gives, else keeps
/// its own.
pub proof fn lemma_declared_node_name(n: NodeV, d: MetaV)
    ensures
        declared_node(n, d).name == declared_name(n.name, d),
{
    let a = applied(n, d);
    let b = match d.name {
        Some(x) => NodeV { name: x, ..a },
        None => a,
    };
    let c = if d.from_model is Some {
        NodeV { ownership: Ownership::Reference, ..b }
    } else {
        b
    };
    lemma_declared_children_name(c, d, d.children.len() as int);
}

/// Each node attached one by one is found by its name below the slot.
proof fn lemma_attach_all_has_children(t: NodeV, cs: Seq<NodeV>)
    ensures
        forall|k: int| 0 <= k < cs.len() ==> has_path(attach_all(t, cs), seq![(#[trigger] cs[k]).name]),
    decreases forest_size(cs),
{
    if cs.len() > 0 {
        lemma_tree_smaller(cs, cs.len() - 1);
        let x = attach_all(t, cs.drop_last());
        lemma_attach_all_has_children(t, cs.drop_last());
        lemma_attached_paths(x, cs.last());
        assert forall|k: int| 0 <= k < cs.len() implies has_path(attach_all(t, cs), seq![(#[trigger] cs[k]).name]) by {
            if k < cs.len() - 1 {
                assert(cs.drop_last()[k] == cs[k]);
                assert(has_path(x, seq![cs.drop_last()[k].name]));
            }
        }
    }
}

/// Filling a node from a mounted folder keeps every path of names it had.
pub proof fn lemma_filled_paths(slot: NodeV, c: NodeV)
    ensures
        keeps_paths(slot, filled(slot, c)),
{
    let t1 = NodeV {
        properties: insert_all_but(slot.properties, c.properties, "Source"@),
        attributes: insert_all(slot.attributes, c.attributes),
        tags: added_to(slot.tags, c.tags),
        file_paths: added_to(slot.file_paths, c.file_paths),
        ..slot
    };
    lemma_same_children_paths(slot, t1);
    lemma_attach_all_paths(t1, c.children);
    lemma_keeps_paths_trans(slot, t1, filled(slot, c));
}

/// Placing a node keeps every path of names the tree had.
pub proof fn lemma_placed_paths(t: NodeV, parent: Seq<char>, n: NodeV)
    ensures
        keeps_paths(t, placed(t, parent, n)),
{
    let p = split_spec(parent);
    let at = reached(t, p, Seq::empty(), 0);
    lemma_attached_paths(at, n);
    lemma_replaced_keeps_paths(t, p, Seq::empty(), 0, attached(at, n));
}

/// Applying a declaration never changes a node's class.
pub proof fn lemma_declared_keeps_class(n: NodeV, d: MetaV)
    ensures
        declared_node(n, d).class_name == n.class_name,
{
    let a = applied(n, d);
    let b = match d.name {
        Some(x) => NodeV { name: x, ..a },
        None => a,
    };
    let c = if d.from_model is Some {
        NodeV { ownership: Ownership::Reference, ..b }
    } else {
        b
    };
    lemma_declared_children_keeps_class(c, d, d.children.len() as int);
}

proof fn lemma_declared_children_keeps_class(n: NodeV, d: MetaV, k: int)
    ensures
        declared_children(n, d, k).class_name == n.class_name,
    decreases k,
{
    if k > 0 && k <= d.children.len() {
        lemma_declared_children_keeps_class(n, d, k - 1);
    }
}

/// Making the steps of a non-empty path and replacing its end leaves the
/// node the path starts from with its name and class.
pub proof fn lemma_replaced_keeps(v: NodeV, path: Seq<Seq<char>>, trail: Seq<char>, depth: nat, sub: NodeV)
    requires
        path.len() > 0,
    ensures
        replaced(v, path, trail, depth, sub).name == v.name,
        replaced(v, path, trail, depth, sub).class_name == v.class_name,
{
}

/// Placing a node leaves the root with its name and class.
pub proof fn lemma_placed_keeps(t: NodeV, parent: Seq<char>, n: NodeV)
    ensures
        placed(t, parent, n).name == t.name,
        placed(t, parent, n).class_name == t.class_name,
{
    let p = split_spec(parent);
    if p.len() > 0 {
        lemma_replaced_keeps(t, p, Seq::empty(), 0, attached(reached(t, p, Seq::empty(), 0), n));
    }
}

/// Filling a node from a mounted folder leaves its name and class.
pub proof fn lemma_filled_keeps(slot: NodeV, c: NodeV)
    ensures
        filled(slot, c).name == slot.name,
        filled(slot, c).class_name == slot.class_name,
{
    lemma_attach_all_keeps(
        NodeV {
            properties: insert_all_but(slot.properties, c.properties, "Source"@),
            attributes: insert_all(slot.attributes, c.attributes),
            tags: added_to(slot.tags, c.tags),
            file_paths: added_to(slot.file_paths, c.file_paths),
            ..slot
        },
        c.children,
    );
}

/// The init scripts a folder is looked for in, first match winning.
fn init_candidate(i: usize) -> (r: (&'static str, Script))
    requires
        i < 6,
    ensures
        r.0@ == candidate_name(i as int),
        r.1 == candidate_script(i as int),
{
    if i == 0 {
        ("init.server.luau", Script::Server)
    } else if i == 1 {
        ("init.server.lua", Script::Server)
    } else if i == 2 {
        ("init.client.luau", Script::Client)
    } else if i == 3 {
        ("init.client.lua", Script::Client)
    } else if i == 4 {
        ("init.luau", Script::Module)
    } else {
        ("init.lua", Script::Module)
    }
}

/// The declaration an entry's sidecar gives: the first one for `stem`.
fn sidecar_for<'a>(sidecars: &'a Vec<(String, Meta)>, stem: &str) -> (r: Option<&'a Meta>)
    ensures
        r matches Some(m) ==> exists|i: int|
            0 <= i < sidecars@.len() && sidecars@[i].0@ == stem@ && *m == sidecars@[i].1 && forall|
                k: int,
            | 0 <= k < i ==> (#[trigger] sidecars@[k]).0@ != stem@,
        r is None ==> forall|k: int| 0 <= k < sidecars@.len() ==> (#[trigger] sidecars@[k]).0@ != stem@,
        r matches Some(m) ==> sidecar_from(sidecar_views(sidecars@), stem@, 0) == Some(m@),
        r is None ==> sidecar_from(sidecar_views(sidecars@), stem@, 0) is None,
{
    let ghost sv = sidecar_views(sidecars@);
    let mut i: usize = 0;
    while i < sidecars.len()
        invariant
            i <= sidecars@.len(),
            sv == sidecar_views(sidecars@),
            forall|k: int| 0 <= k < i ==> (#[trigger] sidecars@[k]).0@ != stem@,
            sidecar_from(sv, stem@, 0) == sidecar_from(sv, stem@, i as int),
        decreases sidecars@.len() - i,
    {
        assert(sv[i as int] == (sidecars@[i as int].0@, sidecars@[i as int].1@));
        if same_str(sidecars[i].0.as_str(), stem) {
            return Some(&sidecars[i].1);
        }
        assert(sidecar_from(sv, stem@, i as int) == sidecar_from(sv, stem@, i + 1));
        i = i + 1;
    }
    None
}

/// The sidecar declarations read, with their text as character sequences.
pub open spec fn sidecar_views(sc: Seq<(String, Meta)>) -> Seq<(Seq<char>, MetaV)> {
    sc.map_values(|e: (String, Meta)| (e.0@, e.1@))
}

/// The declaration a readable declaration file holds; none otherwise.
pub open spec fn decl_of(f: FileEntry) -> MetaV {
    match f.text {
        Ok(t) => match decoded(t@) {
            Some(v) => parse_spec(v),
            None => blank_meta(),
        },
        Err(_) => blank_meta(),
    }
}

/// What a file of the given kind may make, as nodes in place and nodes to
/// hoist, given the answers the transform allows: a script one node with
/// the source the transform gave, an instance file its instances, an asset
/// the built-in node or the transform's instances, anything else nothing.
pub open spec fn file_made<T: Transform>(
    t: &T,
    f: FileEntry,
    relative: Seq<char>,
    kind: KindV,
    stem: Seq<char>,
    ns: Seq<NodeV>,
    hs: Seq<(Seq<char>, NodeV)>,
) -> bool {
    match kind {
        KindV::Script(s) => {
            &&& f.text is Ok
            &&& hs.len() == 0
            &&& exists|src: Seq<char>|
                t.source_gives(relative, script_class(s), raw_text(f), Ok(src)) && ns == seq![
                    script_node_spec(stem, script_class(s), relative, src),
                ]
        },
        KindV::Instance => {
            &&& readable(f)
            &&& ns == instances_spec(parse_many_spec(decoded(raw_text(f))->0), stem, relative).0
            &&& hs == instances_spec(parse_many_spec(decoded(raw_text(f))->0), stem, relative).1
        },
        KindV::Asset(x) => {
            ||| (ns == asset_nodes(stem, x, relative, raw_text(f)) && hs.len() == 0 && (t.claims_gives(x, false)
                || t.file_gives(relative, x, raw_text(f), Ok(None))))
            ||| exists|ls: Seq<LoadedV>|
                t.claims_gives(x, true) && t.file_gives(relative, x, raw_text(f), Ok(Some(ls))) && ns
                    == loaded_spec(ls, stem, relative).0 && hs == loaded_spec(ls, stem, relative).1
        },
        _ => ns.len() == 0 && hs.len() == 0,
    }
}

/// How many of the first `n` files of `dir` are not skipped.
pub open spec fn kept_files(dir: Folder, top: bool, n: int) -> nat
    decreases n,
{
    if n <= 0 || n > dir.files@.len() {
        0
    } else {
        kept_files(dir, top, n - 1) + if skipped_spec(dir.files@[n - 1].name@, top) {
            0nat
        } else {
            1nat
        }
    }
}

/// How many of the first `n` subfolders of `dir` are not skipped.
pub open spec fn kept_folders(dir: Folder, top: bool, n: int) -> nat
    decreases n,
{
    if n <= 0 || n > dir.folders@.len() {
        0
    } else {
        kept_folders(dir, top, n - 1) + if skipped_spec(dir.folders@[n - 1].name@, top) {
            0nat
        } else {
            1nat
        }
    }
}

/// The order the files of a folder are visited in: each file not skipped,
/// once, ascending by name.
pub open spec fn file_order_ok(dir: Folder, top: bool, ord: Seq<int>) -> bool {
    &&& ord.len() == kept_files(dir, top, dir.files@.len() as int)
    &&& forall|k: int|
        0 <= k < ord.len() ==> 0 <= #[trigger] ord[k] < dir.files@.len() && !skipped_spec(
            dir.files@[ord[k]].name@,
            top,
        )
    &&& forall|k: int, l: int|
        0 <= k < l < ord.len() ==> #[trigger] ord[k] != #[trigger] ord[l] && !str_lt(
            dir.files@[ord[l]].name@,
            dir.files@[ord[k]].name@,
        )
}

/// The order the subfolders of a folder are visited in: each one not
/// skipped, once, ascending by name.
pub open spec fn folder_order_ok(dir: Folder, top: bool, ord: Seq<int>) -> bool {
    &&& ord.len() == kept_folders(dir, top, dir.folders@.len() as int)
    &&& forall|k: int|
        0 <= k < ord.len() ==> 0 <= #[trigger] ord[k] < dir.folders@.len() && !skipped_spec(
            dir.folders@[ord[k]].name@,
            top,
        )
    &&& forall|k: int, l: int|
        0 <= k < l < ord.len() ==> #[trigger] ord[k] != #[trigger] ord[l] && !str_lt(
            dir.folders@[ord[l]].name@,
            dir.folders@[ord[k]].name@,
        )
}

/// The sidecar declarations among the first `k` files visited, in order,
/// each with the stem it is for.
pub open spec fn sidecars_of(dir: Folder, ord: Seq<int>, k: int) -> Seq<(Seq<char>, MetaV)>
    decreases k,
{
    if k <= 0 || k > ord.len() {
        Seq::empty()
    } else {
        let f = dir.files@[ord[k - 1]];
        match classify_spec(f.name@).0 {
            KindV::Sidecar(stem) => sidecars_of(dir, ord, k - 1).push((stem, decl_of(f))),
            _ => sidecars_of(dir, ord, k - 1),
        }
    }
}

/// The first declaration among `sc`, from place `i` on, for `stem`.
pub open spec fn sidecar_from(sc: Seq<(Seq<char>, MetaV)>, stem: Seq<char>, i: int) -> Option<MetaV>
    decreases sc.len() - i,
{
    if i < 0 || i >= sc.len() {
        None
    } else if sc[i].0 == stem {
        Some(sc[i].1)
    } else {
        sidecar_from(sc, stem, i + 1)
    }
}

/// The entries nodes make with the sidecar declaration `d` for them:
/// none where it says to ignore them, else each declared with its parent.
pub open spec fn sided(ns: Seq<NodeV>, d: Option<MetaV>) -> Seq<(NodeV, Option<Seq<char>>)> {
    match d {
        None => ns.map_values(|n: NodeV| (n, None::<Seq<char>>)),
        Some(m) => if m.ignore {
            Seq::empty()
        } else {
            ns.map_values(|n: NodeV| (declared_node(n, m), m.parent))
        },
    }
}

/// Whether a file visited makes nodes: of a kind that does, and at the
/// top only `meta.inst.json`.
pub open spec fn counted_at(f: FileEntry, top: bool) -> bool {
    let kind = classify_spec(f.name@).0;
    (!top || eq_ignore_case(f.name@, "meta.inst.json"@)) && !(kind is Ignored || kind is InitMeta
        || kind is InitScript || kind is Sidecar)
}

/// The entries the first `k` files visited make, with the nodes `nss`
/// made of each and the sidecar declarations `sc`.
pub open spec fn file_entries(
    dir: Folder,
    ord: Seq<int>,
    nss: Seq<Seq<NodeV>>,
    sc: Seq<(Seq<char>, MetaV)>,
    k: int,
) -> Seq<(NodeV, Option<Seq<char>>)>
    decreases k,
{
    if k <= 0 || k > ord.len() {
        Seq::empty()
    } else {
        file_entries(dir, ord, nss, sc, k - 1) + sided(
            nss[k - 1],
            sidecar_from(sc, classify_spec(dir.files@[ord[k - 1]].name@).1, 0),
        )
    }
}

/// The entries among the first `k` answers of the subfolders.
pub open spec fn somes(rs: Seq<Option<(NodeV, Option<Seq<char>>)>>, k: int) -> Seq<(NodeV, Option<Seq<char>>)>
    decreases k,
{
    if k <= 0 || k > rs.len() {
        Seq::empty()
    } else {
        match rs[k - 1] {
            Some(e) => somes(rs, k - 1).push(e),
            None => somes(rs, k - 1),
        }
    }
}

/// The first `k` sequences one after the other.
pub open spec fn concat_all<A>(ss: Seq<Seq<A>>, k: int) -> Seq<A>
    decreases k,
{
    if k <= 0 || k > ss.len() {
        Seq::empty()
    } else {
        concat_all(ss, k - 1) + ss[k - 1]
    }
}

/// The entries of the first `k` of `es` without a parent, in order.
pub open spec fn unparented(es: Seq<(NodeV, Option<Seq<char>>)>, k: int) -> Seq<(NodeV, Option<Seq<char>>)>
    decreases k,
{
    if k <= 0 || k > es.len() {
        Seq::empty()
    } else if es[k - 1].1 is None {
        unparented(es, k - 1).push(es[k - 1])
    } else {
        unparented(es, k - 1)
    }
}

/// The entries of the first `k` of `es` with a parent, as nodes to place
/// there, in order.
pub open spec fn parented(es: Seq<(NodeV, Option<Seq<char>>)>, k: int) -> Seq<(Seq<char>, NodeV)>
    decreases k,
{
    if k <= 0 || k > es.len() {
        Seq::empty()
    } else {
        match es[k - 1].1 {
            Some(p) => parented(es, k - 1).push((p, es[k - 1].0)),
            None => parented(es, k - 1),
        }
    }
}

/// Whether a subfolder visited is scanned: below the top always; at the
/// top not the hook scripts, holding an `init.meta.json`, not mounted
/// already and wanted.
pub open spec fn passed(sub: Folder, top: bool, mounted: Seq<Seq<char>>, included: Seq<Seq<char>>, excluded: Seq<Seq<char>>) -> bool {
    !top || (sub.name@ != "scripts"@ && has_file(sub, "init.meta.json"@) && !mounted.contains(sub.name@)
        && wanted_spec(included, excluded, sub.name@))
}

/// The node a folder starts as before its entries are attached: named
/// `name`, of its init script's class or the declared one, with the source
/// `src` of its init script and the files it was read from.
pub open spec fn folder_base(dir: Folder, base: Seq<char>, name: Seq<char>, src: Seq<char>) -> NodeV {
    let d = init_decl(dir);
    let script_paths: Seq<Seq<char>> = match init_script_of(dir) {
        Some(_) => seq![child_spec(base, candidate_name(init_at(dir, 0)))],
        None => Seq::empty(),
    };
    let meta_paths: Seq<Seq<char>> = if has_file(dir, "init.meta.json"@) {
        seq![child_spec(base, "init.meta.json"@)]
    } else {
        Seq::empty()
    };
    NodeV {
        properties: match init_script_of(dir) {
            Some(_) => seq![("Source"@, JsonV::Text(src))],
            None => Seq::empty(),
        },
        file_paths: script_paths + meta_paths,
        ..fresh(
            Seq::empty(),
            name,
            match init_script_of(dir) {
                Some(s) => script_class(s),
                None => class_or_folder(d.class_name),
            },
            Ownership::Managed,
        )
    }
}

/// What a folder may make, given the answers the transform allows: nothing
/// where its `init.meta.json` says to ignore it, else its node, declared
/// as that says and with the entries of its walk attached in order, and
/// the parent it names; `hs` the nodes its walk hoists.
pub open spec fn folder_made<T: Transform>(
    t: &T,
    dir: Folder,
    base: Seq<char>,
    name: Seq<char>,
    r: Option<(NodeV, Option<Seq<char>>)>,
    hs: Seq<(Seq<char>, NodeV)>,
) -> bool
    decreases dir, 2int, 0int,
{
    let d = init_decl(dir);
    if d.ignore {
        r is None && hs.len() == 0
    } else {
        exists|
            src: Seq<char>,
            ord: Seq<int>,
            ford: Seq<int>,
            nss: Seq<Seq<NodeV>>,
            fhs: Seq<Seq<(Seq<char>, NodeV)>>,
            frs: Seq<Option<(NodeV, Option<Seq<char>>)>>,
            ghs: Seq<Seq<(Seq<char>, NodeV)>>,
            es: Seq<(NodeV, Option<Seq<char>>)>,
        | #[trigger] walk_witness(src, ord, ford, nss, fhs, frs, ghs, es) && folder_parts(
            t,
            dir,
            base,
            name,
            r,
            hs,
            src,
            ord,
            ford,
            nss,
            fhs,
            frs,
            ghs,
            es,
        )
    }
}

/// Names the witnesses of a folder's walk, so that they can be found.
pub open spec fn walk_witness(
    src: Seq<char>,
    ord: Seq<int>,
    ford: Seq<int>,
    nss: Seq<Seq<NodeV>>,
    fhs: Seq<Seq<(Seq<char>, NodeV)>>,
    frs: Seq<Option<(NodeV, Option<Seq<char>>)>>,
    ghs: Seq<Seq<(Seq<char>, NodeV)>>,
    es: Seq<(NodeV, Option<Seq<char>>)>,
) -> bool {
    true
}

/// `folder_made` with the source `src` of the init script and the walk of
/// the folder given.
pub open spec fn folder_parts<T: Transform>(
    t: &T,
    dir: Folder,
    base: Seq<char>,
    name: Seq<char>,
    r: Option<(NodeV, Option<Seq<char>>)>,
    hs: Seq<(Seq<char>, NodeV)>,
    src: Seq<char>,
    ord: Seq<int>,
    ford: Seq<int>,
    nss: Seq<Seq<NodeV>>,
    fhs: Seq<Seq<(Seq<char>, NodeV)>>,
    frs: Seq<Option<(NodeV, Option<Seq<char>>)>>,
    ghs: Seq<Seq<(Seq<char>, NodeV)>>,
    es: Seq<(NodeV, Option<Seq<char>>)>,
) -> bool
    decreases dir, 1int, 1int,
{
    let d = init_decl(dir);
    &&& dir_made(
        t,
        dir,
        base,
        false,
        Seq::empty(),
        Seq::empty(),
        Seq::empty(),
        ord,
        ford,
        nss,
        fhs,
        frs,
        ghs,
        es,
        hs,
    )
    &&& (init_script_of(dir) matches Some(sc) ==> t.source_gives(
        child_spec(base, candidate_name(init_at(dir, 0))),
        script_class(sc),
        raw_text(named(dir, candidate_name(init_at(dir, 0)))->0),
        Ok(src),
    ))
    &&& r == Some(
        (
            attach_all(
                declared_node(folder_base(dir, base, name, src), d),
                es.map_values(|e: (NodeV, Option<Seq<char>>)| e.0),
            ),
            d.parent,
        ),
    )
}

/// What the walk of a folder, at the top (`top`) or below, makes with the
/// visiting orders `ord` and `ford`, the nodes `nss` and hoisted nodes
/// `fhs` of each file, and the answers `frs` and hoisted nodes `ghs` of
/// each subfolder: the files' entries in order, their sidecar declarations
/// applied, then the subfolders'; below the top those with a parent are
/// hoisted after what the files and subfolders hoisted, the others kept.
pub open spec fn dir_made<T: Transform>(
    t: &T,
    dir: Folder,
    base: Seq<char>,
    top: bool,
    mounted: Seq<Seq<char>>,
    included: Seq<Seq<char>>,
    excluded: Seq<Seq<char>>,
    ord: Seq<int>,
    ford: Seq<int>,
    nss: Seq<Seq<NodeV>>,
    fhs: Seq<Seq<(Seq<char>, NodeV)>>,
    frs: Seq<Option<(NodeV, Option<Seq<char>>)>>,
    ghs: Seq<Seq<(Seq<char>, NodeV)>>,
    es: Seq<(NodeV, Option<Seq<char>>)>,
    hs: Seq<(Seq<char>, NodeV)>,
) -> bool
    decreases dir, 1int, 0int,
{
    let all = file_entries(dir, ord, nss, sidecars_of(dir, ord, ord.len() as int), ord.len() as int)
        + somes(frs, frs.len() as int);
    &&& file_order_ok(dir, top, ord)
    &&& folder_order_ok(dir, top, ford)
    &&& nss.len() == ord.len()
    &&& fhs.len() == ord.len()
    &&& frs.len() == ford.len()
    &&& ghs.len() == ford.len()
    &&& forall|k: int|
        0 <= k < ord.len() ==> files_made_at(t, dir, base, top, ord, #[trigger] nss[k], fhs[k], k)
    &&& folders_made(t, dir, base, top, mounted, included, excluded, ford, frs, ghs, ford.len() as int)
    &&& es == if top {
        all
    } else {
        unparented(all, all.len() as int)
    }
    &&& hs == concat_all(fhs, fhs.len() as int) + concat_all(ghs, ghs.len() as int) + if top {
        Seq::empty()
    } else {
        parented(all, all.len() as int)
    }
}

/// The `k`-th file visited made `ns` and hoisted `hs`: as `file_made` says
/// where it makes nodes, nothing otherwise.
pub open spec fn files_made_at<T: Transform>(
    t: &T,
    dir: Folder,
    base: Seq<char>,
    top: bool,
    ord: Seq<int>,
    ns: Seq<NodeV>,
    hs: Seq<(Seq<char>, NodeV)>,
    k: int,
) -> bool {
    let f = dir.files@[ord[k]];
    if counted_at(f, top) {
        file_made(t, f, child_spec(base, f.name@), classify_spec(f.name@).0, classify_spec(f.name@).1, ns, hs)
    } else {
        ns.len() == 0 && hs.len() == 0
    }
}

/// The first `k` subfolders visited answered `frs` and hoisted `ghs`: as
/// `folder_made` says where they are scanned, nothing otherwise.
pub open spec fn folders_made<T: Transform>(
    t: &T,
    dir: Folder,
    base: Seq<char>,
    top: bool,
    mounted: Seq<Seq<char>>,
    included: Seq<Seq<char>>,
    excluded: Seq<Seq<char>>,
    ford: Seq<int>,
    frs: Seq<Option<(NodeV, Option<Seq<char>>)>>,
    ghs: Seq<Seq<(Seq<char>, NodeV)>>,
    k: int,
) -> bool
    decreases dir, 0int, k,
{
    if k <= 0 || k > ford.len() || k > frs.len() || k > ghs.len() {
        true
    } else if 0 <= ford[k - 1] < dir.folders@.len() {
        let sub = dir.folders@[ford[k - 1]];
        proof {
            assert(decreases_to!(dir => dir.folders@[ford[k - 1]]));
        }
        folders_made(t, dir, base, top, mounted, included, excluded, ford, frs, ghs, k - 1) && if passed(
            sub,
            top,
            mounted,
            included,
            excluded,
        ) {
            folder_made(t, sub, child_spec(base, sub.name@), sub.name@, frs[k - 1], ghs[k - 1])
        } else {
            frs[k - 1] is None && ghs[k - 1].len() == 0
        }
    } else {
        false
    }
}

/// The files visited in order `ord` made `nss` and hoisted `fhs`, each as
/// `files_made_at` says.
pub open spec fn files_part_made<T: Transform>(
    t: &T,
    dir: Folder,
    base: Seq<char>,
    top: bool,
    ord: Seq<int>,
    nss: Seq<Seq<NodeV>>,
    fhs: Seq<Seq<(Seq<char>, NodeV)>>,
) -> bool {
    &&& nss.len() == ord.len()
    &&& fhs.len() == ord.len()
    &&& forall|k: int| 0 <= k < ord.len() ==> files_made_at(t, dir, base, top, ord, #[trigger] nss[k], fhs[k], k)
}

proof fn lemma_file_entries_prefix(
    dir: Folder,
    ord: Seq<int>,
    a: Seq<Seq<NodeV>>,
    b: Seq<Seq<NodeV>>,
    sc: Seq<(Seq<char>, MetaV)>,
    k: int,
)
    requires
        0 <= k <= a.len(),
        k <= b.len(),
        forall|j: int| 0 <= j < k ==> a[j] == b[j],
    ensures
        file_entries(dir, ord, a, sc, k) == file_entries(dir, ord, b, sc, k),
    decreases k,
{
    if k > 0 {
        lemma_file_entries_prefix(dir, ord, a, b, sc, k - 1);
    }
}

proof fn lemma_concat_prefix<A>(a: Seq<Seq<A>>, b: Seq<Seq<A>>, k: int)
    requires
        0 <= k <= a.len(),
        k <= b.len(),
        forall|j: int| 0 <= j < k ==> a[j] == b[j],
    ensures
        concat_all(a, k) == concat_all(b, k),
    decreases k,
{
    if k > 0 {
        lemma_concat_prefix(a, b, k - 1);
    }
}

proof fn lemma_somes_prefix(a: Seq<Option<(NodeV, Option<Seq<char>>)>>, b: Seq<Option<(NodeV, Option<Seq<char>>)>>, k: int)
    requires
        0 <= k <= a.len(),
        k <= b.len(),
        forall|j: int| 0 <= j < k ==> a[j] == b[j],
    ensures
        somes(a, k) == somes(b, k),
    decreases k,
{
    if k > 0 {
        lemma_somes_prefix(a, b, k - 1);
    }
}

/// The subfolders visited in order `ford` answered `frs` and hoisted `ghs`,
/// each as `folders_made` says.
pub open spec fn folders_part_made<T: Transform>(
    t: &T,
    dir: Folder,
    base: Seq<char>,
    top: bool,
    mounted: Seq<Seq<char>>,
    included: Seq<Seq<char>>,
    excluded: Seq<Seq<char>>,
    ford: Seq<int>,
    frs: Seq<Option<(NodeV, Option<Seq<char>>)>>,
    ghs: Seq<Seq<(Seq<char>, NodeV)>>,
) -> bool {
    &&& frs.len() == ford.len()
    &&& ghs.len() == ford.len()
    &&& folders_made(t, dir, base, top, mounted, included, excluded, ford, frs, ghs, ford.len() as int)
}

/// An optional entry with its text as character sequences.
pub open spec fn entry_opt_view(o: Option<(Node, Option<String>)>) -> Option<(NodeV, Option<Seq<char>>)> {
    match o {
        Some(e) => Some((e.0@, opt_view(e.1))),
        None => None,
    }
}

proof fn lemma_folders_made_prefix<T: Transform>(
    t: &T,
    dir: Folder,
    base: Seq<char>,
    top: bool,
    mounted: Seq<Seq<char>>,
    included: Seq<Seq<char>>,
    excluded: Seq<Seq<char>>,
    ford: Seq<int>,
    frs: Seq<Option<(NodeV, Option<Seq<char>>)>>,
    ghs: Seq<Seq<(Seq<char>, NodeV)>>,
    frs0: Seq<Option<(NodeV, Option<Seq<char>>)>>,
    ghs0: Seq<Seq<(Seq<char>, NodeV)>>,
    k: int,
)
    requires
        0 <= k <= frs0.len(),
        k <= frs.len(),
        k <= ghs0.len(),
        k <= ghs.len(),
        forall|j: int| 0 <= j < k ==> frs[j] == frs0[j] && ghs[j] == ghs0[j],
    ensures
        folders_made(t, dir, base, top, mounted, included, excluded, ford, frs, ghs, k) == folders_made(
            t,
            dir,
            base,
            top,
            mounted,
            included,
            excluded,
            ford,
            frs0,
            ghs0,
            k,
        ),
    decreases k,
{
    if k > 0 {
        lemma_folders_made_prefix(t, dir, base, top, mounted, included, excluded, ford, frs, ghs, frs0, ghs0, k - 1);
    }
}

/// Below the top the walk of a folder does not depend on what is mounted,
/// included or excluded.
proof fn lemma_dir_made_below<T: Transform>(
    t: &T,
    dir: Folder,
    base: Seq<char>,
    mounted: Seq<Seq<char>>,
    included: Seq<Seq<char>>,
    excluded: Seq<Seq<char>>,
    ord: Seq<int>,
    ford: Seq<int>,
    nss: Seq<Seq<NodeV>>,
    fhs: Seq<Seq<(Seq<char>, NodeV)>>,
    frs: Seq<Option<(NodeV, Option<Seq<char>>)>>,
    ghs: Seq<Seq<(Seq<char>, NodeV)>>,
    es: Seq<(NodeV, Option<Seq<char>>)>,
    hs: Seq<(Seq<char>, NodeV)>,
)
    requires
        dir_made(t, dir, base, false, mounted, included, excluded, ord, ford, nss, fhs, frs, ghs, es, hs),
    ensures
        dir_made(
            t,
            dir,
            base,
            false,
            Seq::empty(),
            Seq::empty(),
            Seq::empty(),
            ord,
            ford,
            nss,
            fhs,
            frs,
            ghs,
            es,
            hs,
        ),
{
    lemma_folders_made_below(t, dir, base, mounted, included, excluded, ford, frs, ghs, ford.len() as int);
}

proof fn lemma_folders_made_below<T: Transform>(
    t: &T,
    dir: Folder,
    base: Seq<char>,
    mounted: Seq<Seq<char>>,
    included: Seq<Seq<char>>,
    excluded: Seq<Seq<char>>,
    ford: Seq<int>,
    frs: Seq<Option<(NodeV, Option<Seq<char>>)>>,
    ghs: Seq<Seq<(Seq<char>, NodeV)>>,
    k: int,
)
    ensures
        folders_made(t, dir, base, false, mounted, included, excluded, ford, frs, ghs, k) == folders_made(
            t,
            dir,
            base,
            false,
            Seq::empty(),
            Seq::empty(),
            Seq::empty(),
            ford,
            frs,
            ghs,
            k,
        ),
    decreases k,
{
    if k > 0 {
        lemma_folders_made_below(t, dir, base, mounted, included, excluded, ford, frs, ghs, k - 1);
    }
}

proof fn lemma_folder_made_intro<T: Transform>(
    t: &T,
    dir: Folder,
    base: Seq<char>,
    name: Seq<char>,
    r: Option<(NodeV, Option<Seq<char>>)>,
    hs: Seq<(Seq<char>, NodeV)>,
    src: Seq<char>,
    ord: Seq<int>,
    ford: Seq<int>,
    nss: Seq<Seq<NodeV>>,
    fhs: Seq<Seq<(Seq<char>, NodeV)>>,
    frs: Seq<Option<(NodeV, Option<Seq<char>>)>>,
    ghs: Seq<Seq<(Seq<char>, NodeV)>>,
    es: Seq<(NodeV, Option<Seq<char>>)>,
)
    requires
        !init_decl(dir).ignore,
        folder_parts(t, dir, base, name, r, hs, src, ord, ford, nss, fhs, frs, ghs, es),
    ensures
        folder_made(t, dir, base, name, r, hs),
{
    assert(walk_witness(src, ord, ford, nss, fhs, frs, ghs, es));
}

/// An optional node with its text as character sequences.
pub open spec fn opt_node_view(o: Option<Node>) -> Option<NodeV> {
    match o {
        Some(n) => Some(n@),
        None => None,
    }
}

/// Marks a value as a witness to be found.
pub open spec fn picked<A>(a: A) -> bool {
    true
}

/// The node of an answer, if any.
pub open spec fn answer_node(r: Option<(NodeV, Option<Seq<char>>)>) -> Option<NodeV> {
    match r {
        Some(e) => Some(e.0),
        None => None,
    }
}

/// The aliases a mount adds to those already synced: the top-level folder
/// it is the same as, where it is a folder that has one.
pub open spec fn alias_of(m: Option<Mount>) -> Seq<Seq<char>> {
    match m {
        Some(Mount::Dir { alias, .. }) => match alias {
            Some(a) => seq![a@],
            None => Seq::empty(),
        },
        _ => Seq::empty(),
    }
}

/// What a `$Path` on a declared child named `name` may give, and hoist,
/// given the answers the transform allows: the node of the folder it
/// points at, the first node of the file it points at renamed, or nothing.
pub open spec fn mount_made<T: Transform>(
    t: &T,
    mounts: Seq<(String, Mount)>,
    target: Seq<char>,
    name: Seq<char>,
    got: Option<NodeV>,
    hs: Seq<(Seq<char>, NodeV)>,
) -> bool {
    match mount_for(mounts, target) {
        Some(Mount::Dir { folder, base, .. }) => exists|r: Option<(NodeV, Option<Seq<char>>)>|
            #[trigger] picked(r) && folder_made(t, folder, base@, name, r, hs) && got == answer_node(r),
        Some(Mount::File { file, base }) => exists|ns: Seq<NodeV>|
            #[trigger] picked(ns) && file_made(t, file, base@, classify_spec(file.name@).0, name, ns, hs) && got == if ns.len()
                == 0 {
                None
            } else {
                Some(NodeV { name, ..ns[0] })
            },
        _ => got is None && hs.len() == 0,
    }
}

/// What a service's `$Path` may give, and hoist: the node of the folder it
/// points at, named after the service's last part, or nothing.
pub open spec fn contents_made<T: Transform>(
    t: &T,
    mounts: Seq<(String, Mount)>,
    target: Seq<char>,
    service: Seq<char>,
    got: Option<NodeV>,
    hs: Seq<(Seq<char>, NodeV)>,
) -> bool {
    match mount_for(mounts, target) {
        Some(Mount::Dir { folder, base, .. }) => exists|r: Option<(NodeV, Option<Seq<char>>)>|
            #[trigger] picked(r) && folder_made(t, folder, base@, last_part(service), r, hs) && got == answer_node(r),
        _ => got is None && hs.len() == 0,
    }
}

/// The node a child a service declares makes: declared as it says, with
/// what its `$Path` gave merged in.
pub open spec fn child_node(name: Seq<char>, m: MetaV, got: Option<NodeV>) -> NodeV {
    let n = declared_node(fresh(Seq::empty(), name, class_or_folder(m.class_name), Ownership::Managed), m);
    match got {
        Some(x) => merged(n, x),
        None => n,
    }
}

/// The nodes of the first `k` children a service declares that are not
/// ignored, with what their `$Path`s gave.
pub open spec fn children_built(d: MetaV, got: Seq<Option<NodeV>>, k: int) -> Seq<NodeV>
    decreases k,
{
    if k <= 0 || k > d.children.len() {
        Seq::empty()
    } else if d.children[k - 1].1.ignore {
        children_built(d, got, k - 1)
    } else {
        children_built(d, got, k - 1).push(child_node(d.children[k - 1].0, d.children[k - 1].1, got[k - 1]))
    }
}

/// The aliases the `$Path`s of the first `k` children a service declares
/// mark as synced.
pub open spec fn children_aliases(mounts: Seq<(String, Mount)>, d: MetaV, k: int) -> Seq<Seq<char>>
    decreases k,
{
    if k <= 0 || k > d.children.len() {
        Seq::empty()
    } else if !d.children[k - 1].1.ignore && d.children[k - 1].1.path is Some {
        children_aliases(mounts, d, k - 1) + alias_of(mount_for(mounts, d.children[k - 1].1.path->0))
    } else {
        children_aliases(mounts, d, k - 1)
    }
}

/// The aliases a service's `$Path`s mark as synced.
pub open spec fn service_aliases(mounts: Seq<(String, Mount)>, d: MetaV) -> Seq<Seq<char>> {
    children_aliases(mounts, d, d.children.len() as int) + match d.path {
        Some(target) => alias_of(mount_for(mounts, target)),
        None => Seq::empty(),
    }
}

/// The aliases the first `k` services mark as synced.
pub open spec fn services_aliases(mounts: Seq<(String, Mount)>, svcs: Seq<(Seq<char>, MetaV)>, k: int) -> Seq<Seq<char>>
    decreases k,
{
    if k <= 0 || k > svcs.len() {
        Seq::empty()
    } else {
        services_aliases(mounts, svcs, k - 1) + service_aliases(mounts, svcs[k - 1].1)
    }
}

/// The service at `path` declared as `d` is made with `got` from its
/// children's `$Path`s, hoisting `ghs`, and `cont` from its own, hoisting
/// `chs`, as the transform's answers allow.
pub open spec fn service_made<T: Transform>(
    t: &T,
    mounts: Seq<(String, Mount)>,
    path: Seq<char>,
    d: MetaV,
    got: Seq<Option<NodeV>>,
    ghs: Seq<Seq<(Seq<char>, NodeV)>>,
    cont: Option<NodeV>,
    chs: Seq<(Seq<char>, NodeV)>,
) -> bool {
    &&& got.len() == d.children.len()
    &&& ghs.len() == d.children.len()
    &&& forall|c: int|
        0 <= c < d.children.len() ==> child_made(t, mounts, #[trigger] d.children[c], got[c], ghs[c])
    &&& match d.path {
        Some(target) => contents_made(t, mounts, target, path, cont, chs),
        None => cont is None && chs.len() == 0,
    }
}

/// A declared child gave `got` from its `$Path`, hoisting `hs`; nothing
/// where it is ignored or has none.
pub open spec fn child_made<T: Transform>(
    t: &T,
    mounts: Seq<(String, Mount)>,
    c: (Seq<char>, MetaV),
    got: Option<NodeV>,
    hs: Seq<(Seq<char>, NodeV)>,
) -> bool {
    if !c.1.ignore && c.1.path is Some {
        mount_made(t, mounts, c.1.path->0, c.0, got, hs)
    } else {
        got is None && hs.len() == 0
    }
}

/// The tree once the service at `path`, declared as `d`, is placed: its
/// node made on the way, filled from `cont`, given its declared
/// properties, attributes and tags, and the `built` children attached.
pub open spec fn service_placed(tree: NodeV, path: Seq<char>, d: MetaV, cont: Option<NodeV>, built: Seq<NodeV>) -> NodeV {
    let p = split_spec(path);
    let slot = reached(tree, p, Seq::empty(), 0);
    let full = match cont {
        Some(c) => filled(slot, c),
        None => slot,
    };
    replaced(tree, p, Seq::empty(), 0, attach_all(applied(full, d), built))
}

/// The tree once the first `k` services are placed.
pub open spec fn services_tree(
    tree: NodeV,
    svcs: Seq<(Seq<char>, MetaV)>,
    conts: Seq<Option<NodeV>>,
    gots: Seq<Seq<Option<NodeV>>>,
    k: int,
) -> NodeV
    decreases k,
{
    if k <= 0 || k > svcs.len() {
        tree
    } else {
        service_placed(
            services_tree(tree, svcs, conts, gots, k - 1),
            svcs[k - 1].0,
            svcs[k - 1].1,
            conts[k - 1],
            children_built(svcs[k - 1].1, gots[k - 1], svcs[k - 1].1.children.len() as int),
        )
    }
}

/// What the first `k` services hoisted, in order.
pub open spec fn services_hoisted(
    ghss: Seq<Seq<Seq<(Seq<char>, NodeV)>>>,
    chss: Seq<Seq<(Seq<char>, NodeV)>>,
    k: int,
) -> Seq<(Seq<char>, NodeV)>
    decreases k,
{
    if k <= 0 || k > ghss.len() || k > chss.len() {
        Seq::empty()
    } else {
        services_hoisted(ghss, chss, k - 1) + concat_all(ghss[k - 1], ghss[k - 1].len() as int) + chss[k - 1]
    }
}

/// The tree once the first `k` top-level entries are placed: under their
/// parent, else the project's default, else nowhere.
pub open spec fn entries_placed(
    tree: NodeV,
    es: Seq<(NodeV, Option<Seq<char>>)>,
    default: Option<Seq<char>>,
    k: int,
) -> NodeV
    decreases k,
{
    if k <= 0 || k > es.len() {
        tree
    } else {
        let prev = entries_placed(tree, es, default, k - 1);
        match (if es[k - 1].1 is Some {
            es[k - 1].1
        } else {
            default
        }) {
            Some(p) => placed(prev, p, es[k - 1].0),
            None => prev,
        }
    }
}

/// The tree once the first `k` hoisted nodes are placed under their parent.
pub open spec fn hoisted_placed(tree: NodeV, hs: Seq<(Seq<char>, NodeV)>, k: int) -> NodeV
    decreases k,
{
    if k <= 0 || k > hs.len() {
        tree
    } else {
        placed(hoisted_placed(tree, hs, k - 1), hs[k - 1].0, hs[k - 1].1)
    }
}

/// The tree a project builds to, as the transform's answers allow: the
/// services placed, each service's `$Path`s giving `conts` and `gots`,
/// then the top-level entries of the walk of the project folder (which
/// skips the folders those `$Path`s already synced), then everything
/// hoisted, sorted by name and with ids set from the root.
pub open spec fn build_made<T: Transform>(
    t: &T,
    config: ConfigV,
    root: Folder,
    mounts: Seq<(String, Mount)>,
    tree: NodeV,
    gots: Seq<Seq<Option<NodeV>>>,
    ghss: Seq<Seq<Seq<(Seq<char>, NodeV)>>>,
    conts: Seq<Option<NodeV>>,
    chss: Seq<Seq<(Seq<char>, NodeV)>>,
    ord: Seq<int>,
    ford: Seq<int>,
    nss: Seq<Seq<NodeV>>,
    fhs: Seq<Seq<(Seq<char>, NodeV)>>,
    frs: Seq<Option<(NodeV, Option<Seq<char>>)>>,
    ghs: Seq<Seq<(Seq<char>, NodeV)>>,
    es: Seq<(NodeV, Option<Seq<char>>)>,
    dhs: Seq<(Seq<char>, NodeV)>,
) -> bool {
    let svcs = config.services;
    let n = svcs.len() as int;
    let t1 = services_tree(new_tree(config.name), svcs, conts, gots, n);
    let t2 = entries_placed(t1, es, config.default_parent, es.len() as int);
    let all_hs = services_hoisted(ghss, chss, n) + dhs;
    &&& gots.len() == n
    &&& ghss.len() == n
    &&& conts.len() == n
    &&& chss.len() == n
    &&& forall|i: int|
        0 <= i < n ==> service_made(t, mounts, #[trigger] svcs[i].0, svcs[i].1, gots[i], ghss[i], conts[i], chss[i])
    &&& dir_made(
        t,
        root,
        Seq::empty(),
        true,
        services_aliases(mounts, svcs, n),
        config.included,
        config.excluded,
        ord,
        ford,
        nss,
        fhs,
        frs,
        ghs,
        es,
        dhs,
    )
    &&& tree == reindexed_root(sorted_tree(hoisted_placed(t2, all_hs, all_hs.len() as int)))
}

proof fn lemma_children_built_prefix(d: MetaV, a: Seq<Option<NodeV>>, b: Seq<Option<NodeV>>, k: int)
    requires
        0 <= k <= a.len(),
        k <= b.len(),
        forall|j: int| 0 <= j < k ==> a[j] == b[j],
    ensures
        children_built(d, a, k) == children_built(d, b, k),
    decreases k,
{
    if k > 0 {
        lemma_children_built_prefix(d, a, b, k - 1);
    }
}

proof fn lemma_services_tree_prefix(
    t: NodeV,
    svcs: Seq<(Seq<char>, MetaV)>,
    ca: Seq<Option<NodeV>>,
    ga: Seq<Seq<Option<NodeV>>>,
    cb: Seq<Option<NodeV>>,
    gb: Seq<Seq<Option<NodeV>>>,
    k: int,
)
    requires
        0 <= k <= ca.len(),
        k <= cb.len(),
        k <= ga.len(),
        k <= gb.len(),
        forall|j: int| 0 <= j < k ==> ca[j] == cb[j] && ga[j] == gb[j],
    ensures
        services_tree(t, svcs, ca, ga, k) == services_tree(t, svcs, cb, gb, k),
    decreases k,
{
    if k > 0 {
        lemma_services_tree_prefix(t, svcs, ca, ga, cb, gb, k - 1);
    }
}

proof fn lemma_services_hoisted_prefix(
    ga: Seq<Seq<Seq<(Seq<char>, NodeV)>>>,
    ca: Seq<Seq<(Seq<char>, NodeV)>>,
    gb: Seq<Seq<Seq<(Seq<char>, NodeV)>>>,
    cb: Seq<Seq<(Seq<char>, NodeV)>>,
    k: int,
)
    requires
        0 <= k <= ga.len(),
        k <= ca.len(),
        k <= gb.len(),
        k <= cb.len(),
        forall|j: int| 0 <= j < k ==> ga[j] == gb[j] && ca[j] == cb[j],
    ensures
        services_hoisted(ga, ca, k) == services_hoisted(gb, cb, k),
    decreases k,
{
    if k > 0 {
        lemma_services_hoisted_prefix(ga, ca, gb, cb, k - 1);
    }
}

/// The entries of a walk with their text as character sequences.
pub open spec fn entry_views(es: Seq<(Node, Option<String>)>) -> Seq<(NodeV, Option<Seq<char>>)> {
    es.map_values(|e: (Node, Option<String>)| (e.0@, opt_view(e.1)))
}

/// Indices as integers.
pub open spec fn ints(s: Seq<usize>) -> Seq<int> {
    s.map_values(|x: usize| x as int)
}

/// The files of `dir` in the order they are visited (see `file_order_ok`).
fn visit_files(dir: &Folder, top: bool) -> (r: Vec<usize>)
    ensures
        file_order_ok(*dir, top, ints(r@)),
        forall|k: int| 0 <= k < r@.len() ==> #[trigger] r@[k] < dir.files@.len(),
{
    let mut names: Vec<String> = Vec::new();
    let mut at: Vec<usize> = Vec::new();
    let mut i: usize = 0;
    while i < dir.files.len()
        invariant
            i <= dir.files@.len(),
            names@.len() == at@.len(),
            at@.len() == kept_files(*dir, top, i as int),
            forall|k: int| 0 <= k < at@.len() ==> #[trigger] at@[k] < i,
            forall|k: int, l: int| 0 <= k < l < at@.len() ==> #[trigger] at@[k] < #[trigger] at@[l],
            forall|k: int|
                0 <= k < at@.len() ==> (#[trigger] names@[k])@ == dir.files@[at@[k] as int].name@
                    && !skipped_spec(dir.files@[at@[k] as int].name@, top),
        decreases dir.files@.len() - i,
    {
        if !skipped(dir.files[i].name.as_str(), top) {
            let ghost pn = names@;
            let ghost pa = at@;
            let nm = dir.files[i].name.clone();
            assert(nm@ == dir.files@[i as int].name@);
            names.push(nm);
            at.push(i);
            assert forall|k: int| 0 <= k < at@.len() implies (#[trigger] names@[k])@ == dir.files@[at@[k] as int].name@
                && !skipped_spec(dir.files@[at@[k] as int].name@, top) by {
                if k < pa.len() {
                    assert(names@[k] == pn[k]);
                    assert(at@[k] == pa[k]);
                }
            }
        }
        i = i + 1;
    }
    let order = name_order(&names);
    let mut r: Vec<usize> = Vec::new();
    let mut k: usize = 0;
    while k < order.len()
        invariant
            k <= order@.len(),
            order@.len() == names@.len(),
            names@.len() == at@.len(),
            r@.len() == k,
            forall|j: int| 0 <= j < order@.len() ==> #[trigger] order@[j] < names@.len(),
            forall|j: int| 0 <= j < k ==> #[trigger] r@[j] == at@[order@[j] as int],
        decreases order@.len() - k,
    {
        r.push(at[order[k]]);
        k = k + 1;
    }
    proof {
        let o = ints(r@);
        assert forall|a: int, b: int| 0 <= a < b < o.len() implies #[trigger] o[a] != #[trigger] o[b]
            && !str_lt(dir.files@[o[b]].name@, dir.files@[o[a]].name@) by {
            assert(order@[a] != order@[b]);
            assert(names@[order@[b] as int]@ == dir.files@[o[b]].name@);
            assert(names@[order@[a] as int]@ == dir.files@[o[a]].name@);
            if order@[a] < order@[b] {
                assert(at@[order@[a] as int] < at@[order@[b] as int]);
            } else {
                assert(at@[order@[b] as int] < at@[order@[a] as int]);
            }
        }
        assert forall|a: int| 0 <= a < o.len() implies 0 <= #[trigger] o[a] < dir.files@.len()
            && !skipped_spec(dir.files@[o[a]].name@, top) by {
            assert(names@[order@[a] as int]@ == dir.files@[o[a]].name@);
        }
    }
    r
}

/// The subfolders of `dir` in the order they are visited (see
/// `folder_order_ok`).
fn visit_folders(dir: &Folder, top: bool) -> (r: Vec<usize>)
    ensures
        folder_order_ok(*dir, top, ints(r@)),
        forall|k: int| 0 <= k < r@.len() ==> #[trigger] r@[k] < dir.folders@.len(),
{
    let mut names: Vec<String> = Vec::new();
    let mut at: Vec<usize> = Vec::new();
    let mut i: usize = 0;
    while i < dir.folders.len()
        invariant
            i <= dir.folders@.len(),
            names@.len() == at@.len(),
            at@.len() == kept_folders(*dir, top, i as int),
            forall|k: int| 0 <= k < at@.len() ==> #[trigger] at@[k] < i,
            forall|k: int, l: int| 0 <= k < l < at@.len() ==> #[trigger] at@[k] < #[trigger] at@[l],
            forall|k: int|
                0 <= k < at@.len() ==> (#[trigger] names@[k])@ == dir.folders@[at@[k] as int].name@
                    && !skipped_spec(dir.folders@[at@[k] as int].name@, top),
        decreases dir.folders@.len() - i,
    {
        if !skipped(dir.folders[i].name.as_str(), top) {
            let ghost pn = names@;
            let ghost pa = at@;
            let nm = dir.folders[i].name.clone();
            assert(nm@ == dir.folders@[i as int].name@);
            names.push(nm);
            at.push(i);
            assert forall|k: int| 0 <= k < at@.len() implies (#[trigger] names@[k])@ == dir.folders@[at@[k] as int].name@
                && !skipped_spec(dir.folders@[at@[k] as int].name@, top) by {
                if k < pa.len() {
                    assert(names@[k] == pn[k]);
                    assert(at@[k] == pa[k]);
                }
            }
        }
        i = i + 1;
    }
    let order = name_order(&names);
    let mut r: Vec<usize> = Vec::new();
    let mut k: usize = 0;
    while k < order.len()
        invariant
            k <= order@.len(),
            order@.len() == names@.len(),
            names@.len() == at@.len(),
            r@.len() == k,
            forall|j: int| 0 <= j < order@.len() ==> #[trigger] order@[j] < names@.len(),
            forall|j: int| 0 <= j < k ==> #[trigger] r@[j] == at@[order@[j] as int],
        decreases order@.len() - k,
    {
        r.push(at[order[k]]);
        k = k + 1;
    }
    proof {
        let o = ints(r@);
        assert forall|a: int, b: int| 0 <= a < b < o.len() implies #[trigger] o[a] != #[trigger] o[b]
            && !str_lt(dir.folders@[o[b]].name@, dir.folders@[o[a]].name@) by {
            assert(order@[a] != order@[b]);
            assert(names@[order@[b] as int]@ == dir.folders@[o[b]].name@);
            assert(names@[order@[a] as int]@ == dir.folders@[o[a]].name@);
            if order@[a] < order@[b] {
                assert(at@[order@[a] as int] < at@[order@[b] as int]);
            } else {
                assert(at@[order@[b] as int] < at@[order@[a] as int]);
            }
        }
        assert forall|a: int| 0 <= a < o.len() implies 0 <= #[trigger] o[a] < dir.folders@.len()
            && !skipped_spec(dir.folders@[o[a]].name@, top) by {
            assert(names@[order@[a] as int]@ == dir.folders@[o[a]].name@);
        }
    }
    r
}

/// Walks a project as read from disk, building nodes for what it holds.
pub struct Scanner<'a, T: Transform> {
    transform: &'a T,
    mounts: &'a Vec<(String, Mount)>,
    hoisted: Vec<(String, Node)>,
    files: Vec<String>,
    included: Vec<String>,
    excluded: Vec<String>,
    mounted: Vec<String>,
    warnings: Vec<String>,
}

impl<'a, T: Transform> Scanner<'a, T> {
    /// What the manifest's `$Path` `target` points at: the first mount
    /// read for it.
    fn lookup(&self, target: &str) -> (r: Option<&'a Mount>)
        ensures
            r matches Some(m) ==> exists|i: int|
                0 <= i < self.mounts@.len() && self.mounts@[i].0@ == target@ && *m == self.mounts@[i].1,
            r is None ==> forall|k: int| 0 <= k < self.mounts@.len() ==> (#[trigger] self.mounts@[k]).0@ != target@,
            r matches Some(m) ==> mount_for(self.mounts@, target@) == Some(*m),
            r is None ==> mount_for(self.mounts@, target@) is None,
    {
        let mounts: &'a Vec<(String, Mount)> = self.mounts;
        let mut i: usize = 0;
        while i < mounts.len()
            invariant
                mounts == self.mounts,
                i <= mounts@.len(),
                forall|k: int| 0 <= k < i ==> (#[trigger] mounts@[k]).0@ != target@,
                mount_from(mounts@, target@, 0) == mount_from(mounts@, target@, i as int),
            decreases mounts@.len() - i,
        {
            if same_str(mounts[i].0.as_str(), target) {
                return Some(&mounts[i].1);
            }
            assert(mount_from(mounts@, target@, i as int) == mount_from(mounts@, target@, i + 1));
            i = i + 1;
        }
        None
    }

    /// The nodes a file makes, by its kind. Nodes placed elsewhere go to
    /// the hoisted ones.
    fn file(&mut self, entry: &FileEntry, relative: &str, kind: &Kind, stem: &str) -> (r: Result<Vec<Node>, String>)
        ensures
            kind matches Kind::Script(s) ==> (r matches Ok(ns) ==> ns@.len() == 1 && ns@[0]@.name == stem@
                && ns@[0]@.class_name == script_class(*s) && ns@[0]@.file_paths == seq![relative@]),
            kind matches Kind::Instance ==> (r matches Ok(ns) ==> (entry.text matches Ok(t) && decoded(
                t@,
            ) is Some && node_views(ns@) == instances_spec(
                parse_many_spec(decoded(t@)->0),
                stem@,
                relative@,
            ).0)),
            !(kind is Script || kind is Instance || kind is Asset) ==> (r matches Ok(ns) && ns@.len()
                == 0),
            (kind is Script || kind is Instance) ==> (entry.text matches Err(e) ==> (r matches Err(m)
                && m@ == failure(relative@, e@))),
            (kind is Instance && readable(*entry)) ==> r is Ok,
            kind matches Kind::Script(s) ==> (entry.text matches Ok(t) ==> ((r matches Ok(ns) ==> exists|
                src: Seq<char>,
            |
                old(self).transform.source_gives(relative@, script_class(*s), t@, Ok(src)) && ns@.len() == 1
                    && ns@[0]@ == script_node_spec(stem@, script_class(*s), relative@, src)) && (r matches Err(
                e,
            ) ==> old(self).transform.source_gives(relative@, script_class(*s), t@, Err(e@))) && ((forall|
                e: Seq<char>,
            | !old(self).transform.source_gives(relative@, script_class(*s), t@, Err(e))) ==> r is Ok))),
            kind matches Kind::Asset(x) ==> (!old(self).transform.claims_gives(x@, true) ==> (r matches Ok(ns)
                && node_views(ns@) == asset_nodes(stem@, x@, relative@, raw_text(*entry)))),
            kind matches Kind::Asset(x) ==> (r matches Ok(ns) ==> ((node_views(ns@) == asset_nodes(
                stem@,
                x@,
                relative@,
                raw_text(*entry),
            ) && (old(self).transform.claims_gives(x@, false) || old(self).transform.file_gives(
                relative@,
                x@,
                raw_text(*entry),
                Ok(None),
            ))) || exists|ls: Seq<LoadedV>|
                old(self).transform.claims_gives(x@, true) && old(self).transform.file_gives(
                    relative@,
                    x@,
                    raw_text(*entry),
                    Ok(Some(ls)),
                ) && node_views(ns@) == loaded_spec(ls, stem@, relative@).0)),
            kind matches Kind::Asset(x) ==> (r matches Err(e) ==> old(self).transform.claims_gives(x@, true)
                && old(self).transform.file_gives(relative@, x@, raw_text(*entry), Err(e@))),
            final(self).mounts == old(self).mounts,
            final(self).transform == old(self).transform,
            final(self).mounted == old(self).mounted,
            final(self).included == old(self).included,
            final(self).excluded == old(self).excluded,
            r matches Ok(ns) ==> exists|hs: Seq<(Seq<char>, NodeV)>|
                file_made(old(self).transform, *entry, relative@, kind@, stem@, node_views(ns@), hs)
                    && hoisted_views(final(self).hoisted@) == hoisted_views(old(self).hoisted@) + hs,
    {
        match kind {
            Kind::Script(script) => {
                let raw = match &entry.text {
                    Ok(t) => t.clone(),
                    Err(e) => return Err(fail_at(relative, e.as_str())),
                };
                let source = match self.transform.source(relative, script.class_name(), raw) {
                    Ok(s) => s,
                    Err(e) => return Err(e),
                };
                let node = script_node(stem, *script, relative, source);
                let out = vec![node];
                proof {
                    assert(node_views(out@) =~= seq![node@]);
                    assert(hoisted_views(self.hoisted@) =~= hoisted_views(old(self).hoisted@) + Seq::<(Seq<char>, NodeV)>::empty());
                    assert(file_made(old(self).transform, *entry, relative@, kind@, stem@, node_views(out@), Seq::empty()));
                }
                Ok(out)
            },
            Kind::Instance => {
                let value = read_value(entry, relative)?;
                let declarations = parse_many(&value);
                let mut warned = crate::project::meta::many_warnings(&value, relative);
                self.warnings.append(&mut warned);
                let mut warned = models_warned(&declarations, relative);
                self.warnings.append(&mut warned);
                let (nodes, hoisted) = instance_nodes(&declarations, stem, relative);
                let ghost before = hoisted_views(self.hoisted@);
                let ghost added = hoisted_views(hoisted@);
                let mut hoisted = hoisted;
                self.hoisted.append(&mut hoisted);
                proof {
                    assert(hoisted_views(self.hoisted@) =~= before + added);
                    assert(declarations@.map_values(|m: Meta| m@) =~= parse_many_spec(decoded(raw_text(*entry))->0));
                    assert(file_made(old(self).transform, *entry, relative@, kind@, stem@, node_views(nodes@), added));
                }
                Ok(nodes)
            },
            Kind::Asset(extension) => {
                let raw = match &entry.text {
                    Ok(t) => t.clone(),
                    Err(_) => String::new(),
                };
                if self.transform.claims(extension.as_str()) {
                    match self.transform.file(relative, extension.as_str(), raw.as_str()) {
                        Err(e) => return Err(e),
                        Ok(Some(produced)) => {
                            let ghost ls = produced@.map_values(|l: Loaded| l@);
                            let (nodes, hoisted) = loaded_nodes(produced, stem, relative);
                            let ghost before = hoisted_views(self.hoisted@);
                            let ghost added = hoisted_views(hoisted@);
                            let mut hoisted = hoisted;
                            self.hoisted.append(&mut hoisted);
                            proof {
                                assert(hoisted_views(self.hoisted@) =~= before + added);
                                assert(file_made(old(self).transform, *entry, relative@, kind@, stem@, node_views(nodes@), added));
                            }
                            return Ok(nodes);
                        },
                        Ok(None) => {},
                    }
                }
                let made = match asset_node(stem, extension.as_str(), relative, raw.as_str()) {
                    Some(node) => vec![node],
                    None => Vec::new(),
                };
                proof {
                    assert(node_views(made@) =~= asset_nodes(stem@, extension@, relative@, raw_text(*entry)));
                    assert(hoisted_views(self.hoisted@) =~= hoisted_views(old(self).hoisted@) + Seq::<(Seq<char>, NodeV)>::empty());
                    assert(file_made(old(self).transform, *entry, relative@, kind@, stem@, node_views(made@), Seq::empty()));
                }
                Ok(made)
            },
            _ => {
                let made: Vec<Node> = Vec::new();
                proof {
                    assert(node_views(made@) =~= Seq::<NodeV>::empty());
                    assert(hoisted_views(self.hoisted@) =~= hoisted_views(old(self).hoisted@) + Seq::<(Seq<char>, NodeV)>::empty());
                    assert(file_made(old(self).transform, *entry, relative@, kind@, stem@, node_views(made@), Seq::empty()));
                }
                Ok(made)
            },
        }
    }

    /// The declarations of the sidecar files among `ord`, read in order.
    fn read_sidecars(&mut self, dir: &Folder, base: &str, ord: &Vec<usize>) -> (r: Result<Vec<(String, Meta)>, String>)
        requires
            forall|k: int| 0 <= k < ord@.len() ==> #[trigger] ord@[k] < dir.files@.len(),
        ensures
            r matches Ok(sc) ==> sidecar_views(sc@) == sidecars_of(*dir, ints(ord@), ord@.len() as int),
            (forall|k: int|
                0 <= k < ord@.len() && classify_spec(dir.files@[#[trigger] ord@[k] as int].name@).0 is Sidecar
                    ==> readable(dir.files@[ord@[k] as int])) ==> r is Ok,
            r is Ok ==> final(self).mounts == old(self).mounts && final(self).transform == old(self).transform
                && final(self).mounted == old(self).mounted && final(self).included == old(self).included
                && final(self).excluded == old(self).excluded && final(self).hoisted == old(self).hoisted,
    {
        let ghost o = ints(ord@);
        let ghost s0 = *old(self);
        let mut sidecars: Vec<(String, Meta)> = Vec::new();
        let mut i: usize = 0;
        while i < ord.len()
            invariant
                i <= ord@.len(),
                o == ints(ord@),
                forall|k: int| 0 <= k < ord@.len() ==> #[trigger] ord@[k] < dir.files@.len(),
                sidecar_views(sidecars@) == sidecars_of(*dir, o, i as int),
                self.mounts == s0.mounts && self.transform == s0.transform && self.mounted == s0.mounted
                    && self.included == s0.included && self.excluded == s0.excluded && self.hoisted == s0.hoisted,
            decreases ord@.len() - i,
        {
            let file = &dir.files[ord[i]];
            assert(o[i as int] == ord@[i as int] as int);
            let (kind, _) = classify(file.name.as_str());
            if let Kind::Sidecar(stem) = kind {
                let relative = child(base, file.name.as_str());
                self.files.push(copy_str(relative.as_str()));
                let value = read_value(file, relative.as_str())?;
                let mut warned = crate::project::meta::warnings(&value, relative.as_str());
                self.warnings.append(&mut warned);
                let ghost prev = sidecar_views(sidecars@);
                let declared = parse(&value);
                sidecars.push((stem, declared));
                assert(sidecar_views(sidecars@) =~= prev.push((stem@, decl_of(*file))));
            }
            i = i + 1;
        }
        Ok(sidecars)
    }

    /// The entries the files visited make, in order, with their sidecar
    /// declarations applied.
    fn file_part(
        &mut self,
        dir: &Folder,
        base: &str,
        top: bool,
        ord: &Vec<usize>,
        sidecars: &Vec<(String, Meta)>,
    ) -> (r: Result<Vec<(Node, Option<String>)>, String>)
        requires
            forall|k: int| 0 <= k < ord@.len() ==> #[trigger] ord@[k] < dir.files@.len(),
        ensures
            r matches Ok(es) ==> exists|nss: Seq<Seq<NodeV>>, fhs: Seq<Seq<(Seq<char>, NodeV)>>|
                #[trigger] files_part_made(old(self).transform, *dir, base@, top, ints(ord@), nss, fhs)
                    && entry_views(es@) == file_entries(
                    *dir,
                    ints(ord@),
                    nss,
                    sidecar_views(sidecars@),
                    ord@.len() as int,
                ) && hoisted_views(final(self).hoisted@) == hoisted_views(old(self).hoisted@)
                    + concat_all(fhs, fhs.len() as int),
            (forall|k: int|
                0 <= k < ord@.len() && counted_at(dir.files@[#[trigger] ord@[k] as int], top) ==> counted_ok(
                    dir.files@[ord@[k] as int],
                )) ==> r is Ok,
            r is Ok ==> final(self).mounts == old(self).mounts && final(self).transform == old(self).transform
                && final(self).mounted == old(self).mounted && final(self).included == old(self).included
                && final(self).excluded == old(self).excluded,
    {
        let ghost o = ints(ord@);
        let ghost s0 = *old(self);
        let ghost sc = sidecar_views(sidecars@);
        let ghost mut nss: Seq<Seq<NodeV>> = Seq::empty();
        let ghost mut fhs: Seq<Seq<(Seq<char>, NodeV)>> = Seq::empty();
        let mut entries: Vec<(Node, Option<String>)> = Vec::new();
        let mut i: usize = 0;
        while i < ord.len()
            invariant
                i <= ord@.len(),
                o == ints(ord@),
                sc == sidecar_views(sidecars@),
                forall|k: int| 0 <= k < ord@.len() ==> #[trigger] ord@[k] < dir.files@.len(),
                nss.len() == i,
                fhs.len() == i,
                forall|k: int| 0 <= k < i ==> files_made_at(s0.transform, *dir, base@, top, o, #[trigger] nss[k], fhs[k], k),
                entry_views(entries@) == file_entries(*dir, o, nss, sc, i as int),
                hoisted_views(self.hoisted@) == hoisted_views(s0.hoisted@) + concat_all(fhs, i as int),
                self.mounts == s0.mounts && self.transform == s0.transform && self.mounted == s0.mounted
                    && self.included == s0.included && self.excluded == s0.excluded,
            decreases ord@.len() - i,
        {
            let file = &dir.files[ord[i]];
            assert(o[i as int] == ord@[i as int] as int);
            let lowered = chars_of(file.name.as_str());
            let dotted = chars_of("meta.inst.json");
            let (kind, stem) = classify(file.name.as_str());
            let counted = match kind {
                Kind::Ignored | Kind::InitMeta | Kind::InitScript(_) | Kind::Sidecar(_) => false,
                _ => true,
            };
            let ghost h_before = hoisted_views(self.hoisted@);
            let ghost e_before = entry_views(entries@);
            let ghost nss0 = nss;
            let ghost fhs0 = fhs;
            if (!top || eq_ignore_case_chars(lowered.as_slice(), dotted.as_slice())) && counted {
                let relative = child(base, file.name.as_str());
                self.files.push(copy_str(relative.as_str()));
                let nodes = self.file(file, relative.as_str(), &kind, stem.as_str())?;
                let ghost ns = node_views(nodes@);
                let ghost hs = choose|hs: Seq<(Seq<char>, NodeV)>|
                    file_made(s0.transform, *file, relative@, kind@, stem@, ns, hs)
                        && hoisted_views(self.hoisted@) == h_before + hs;
                let found = sidecar_for(sidecars, stem.as_str());
                let ghost d: Option<MetaV> = match found {
                    Some(m) => Some(m@),
                    None => None,
                };
                assert(d == sidecar_from(sc, classify_spec(dir.files@[o[i as int]].name@).1, 0));
                let mut nodes = nodes;
                let total = nodes.len();
                let mut k: usize = 0;
                while k < total
                    invariant
                        k <= total,
                        total == ns.len(),
                        nodes@.len() == total - k,
                        forall|j: int| 0 <= j < nodes@.len() ==> (#[trigger] nodes@[j])@ == ns[k + j],
                        entry_views(entries@) == e_before + sided(ns.take(k as int), d),
                        d == match found {
                            Some(m) => Some(m@),
                            None => None::<MetaV>,
                        },
                        self.mounts == s0.mounts && self.transform == s0.transform && self.mounted
                            == s0.mounted && self.included == s0.included && self.excluded == s0.excluded,
                        hoisted_views(self.hoisted@) == h_before + hs,
                    decreases total - k,
                {
                    let ghost before = entry_views(entries@);
                    let ghost rest = nodes@;
                    let mut node = nodes.remove(0);
                    assert(node@ == ns[k as int]);
                    assert forall|j: int| 0 <= j < nodes@.len() implies (#[trigger] nodes@[j])@ == ns[k + 1 + j] by {
                        assert(nodes@[j] == rest[j + 1]);
                    }
                    assert(ns.take(k + 1) =~= ns.take(k as int).push(ns[k as int]));
                    match found {
                        Some(declared) => {
                            if !declared.ignore {
                                apply_declaration(&mut node, declared);
                                let parent = match &declared.parent {
                                    Some(p) => Some(p.clone()),
                                    None => None,
                                };
                                entries.push((node, parent));
                                assert(entry_views(entries@) =~= before.push((declared_node(ns[k as int], declared@), declared@.parent)));
                                assert(sided(ns.take(k + 1), d) =~= sided(ns.take(k as int), d).push((declared_node(ns[k as int], declared@), declared@.parent)));
                            } else {
                                assert(sided(ns.take(k + 1), d) =~= sided(ns.take(k as int), d));
                            }
                        },
                        None => {
                            entries.push((node, None));
                            assert(entry_views(entries@) =~= before.push((ns[k as int], None)));
                            assert(sided(ns.take(k + 1), d) =~= sided(ns.take(k as int), d).push((ns[k as int], None)));
                        },
                    }
                    assert(entry_views(entries@) =~= e_before + sided(ns.take(k + 1), d));
                    k = k + 1;
                }
                assert(ns.take(total as int) =~= ns);
                proof {
                    assert(files_made_at(s0.transform, *dir, base@, top, o, ns, hs, i as int));
                    nss = nss.push(ns);
                    fhs = fhs.push(hs);
                    assert(nss.take(i as int) =~= nss.drop_last());
                }
            } else {
                proof {
                    assert(files_made_at(s0.transform, *dir, base@, top, o, Seq::empty(), Seq::empty(), i as int));
                    nss = nss.push(Seq::empty());
                    fhs = fhs.push(Seq::empty());
                    assert(sided(Seq::<NodeV>::empty(), sidecar_from(sc, classify_spec(dir.files@[o[i as int]].name@).1, 0)) =~= Seq::<(NodeV, Option<Seq<char>>)>::empty());
                    assert(entry_views(entries@) =~= e_before + Seq::<(NodeV, Option<Seq<char>>)>::empty());
                    assert(hoisted_views(self.hoisted@) =~= h_before + Seq::<(Seq<char>, NodeV)>::empty());
                }
            }
            proof {
                assert forall|k: int| 0 <= k < i + 1 implies files_made_at(s0.transform, *dir, base@, top, o, #[trigger] nss[k], fhs[k], k) by {
                    if k < i {
                        assert(nss[k] == nss0[k]);
                        assert(fhs[k] == fhs0[k]);
                    }
                }
                lemma_file_entries_prefix(*dir, o, nss, nss0, sc, i as int);
                lemma_concat_prefix(fhs, fhs0, i as int);
                assert(file_entries(*dir, o, nss, sc, i + 1) == file_entries(*dir, o, nss, sc, i as int) + sided(
                    nss[i as int],
                    sidecar_from(sc, classify_spec(dir.files@[o[i as int]].name@).1, 0),
                ));
                assert(entry_views(entries@) =~= file_entries(*dir, o, nss, sc, i + 1));
                assert(concat_all(fhs, i + 1) == concat_all(fhs, i as int) + fhs[i as int]);
                assert(hoisted_views(self.hoisted@) =~= hoisted_views(s0.hoisted@) + concat_all(fhs, i + 1));
            }
            i = i + 1;
        }
        proof {
            assert(files_part_made(s0.transform, *dir, base@, top, o, nss, fhs));
        }
        Ok(entries)
    }

    /// The node a folder makes, with the parent its `init.meta.json` gives;
    /// nothing where it says to ignore the folder.
    fn folder(&mut self, dir: &Folder, base: &str, name: &str) -> (r: Result<Option<(Node, Option<String>)>, String>)
        ensures
            r matches Ok(Some(e)) ==> (init_script_of(*dir) matches Some(s) ==> e.0@.class_name
                == script_class(s)),
            r matches Ok(Some(e)) ==> (init_script_of(*dir) is None ==> e.0@.class_name == class_or_folder(
                init_decl(*dir).class_name,
            )),
            r matches Ok(o) ==> (o is None <==> init_decl(*dir).ignore),
            r matches Ok(Some(e)) ==> e.0@.name == declared_name(name@, init_decl(*dir)) && opt_view(e.1)
                == init_decl(*dir).parent,
            folder_ok(*dir) ==> r is Ok,
            init_decl(*dir).ignore ==> r matches Ok(None),
            r matches Ok(Some(e)) ==> (init_script_of(*dir) matches Some(sc) ==> exists|src: Seq<char>|
                old(self).transform.source_gives(
                    child_spec(base@, candidate_name(init_at(*dir, 0))),
                    script_class(sc),
                    raw_text(named(*dir, candidate_name(init_at(*dir, 0)))->0),
                    Ok(src),
                ) && e.0@.properties == insert_all(
                    seq![("Source"@, JsonV::Text(src))],
                    init_decl(*dir).properties,
                )),
            r matches Ok(Some(e)) ==> (init_script_of(*dir) is None ==> e.0@.properties == insert_all(
                Seq::empty(),
                init_decl(*dir).properties,
            )),
            r is Ok ==> final(self).mounts == old(self).mounts && final(self).transform == old(self).transform
                && final(self).mounted == old(self).mounted && final(self).included == old(self).included
                && final(self).excluded == old(self).excluded,
            r matches Ok(o) ==> exists|hs: Seq<(Seq<char>, NodeV)>|
                #[trigger] folder_made(old(self).transform, *dir, base@, name@, entry_opt_view(o), hs)
                    && hoisted_views(final(self).hoisted@) == hoisted_views(old(self).hoisted@) + hs,
        decreases dir, 2int,
    {
        let meta_relative = child(base, "init.meta.json");
        let init_meta = file_named(dir, "init.meta.json");
        let declared = match init_meta {
            Some(f) => {
                self.files.push(copy_str(meta_relative.as_str()));
                let value = read_value(f, meta_relative.as_str())?;
                let mut warned = crate::project::meta::warnings(&value, meta_relative.as_str());
                self.warnings.append(&mut warned);
                parse(&value)
            },
            None => Meta::default(),
        };
        assert(declared@ == init_decl(*dir));
        if declared.ignore {
            proof {
                assert(hoisted_views(self.hoisted@) =~= hoisted_views(old(self).hoisted@) + Seq::<(Seq<char>, NodeV)>::empty());
                assert(folder_made(old(self).transform, *dir, base@, name@, None, Seq::empty()));
            }
            return Ok(None);
        }
        let ghost s0 = *old(self);
        let ghost mounts0 = old(self).mounts;
        let mut class_name = class_or_folder_of(&declared.class_name);
        let mut source: Option<String> = None;
        let mut script_relative: Option<String> = None;
        let mut i: usize = 0;
        let ghost found: Option<Script> = None;
        let ghost t0 = old(self).transform;
        let ghost at = init_at(*dir, 0);
        while i < 6
            invariant_except_break
                i <= 6,
                init_script_of(*dir) == init_from(*dir, i as int),
                at == init_at(*dir, i as int),
                found is None,
                source is None,
                script_relative is None,
                class_name@ == class_or_folder(init_decl(*dir).class_name),
            invariant
                self.mounts == mounts0,
                self.transform == t0,
                self.mounted == s0.mounted && self.included == s0.included && self.excluded == s0.excluded
                    && self.hoisted == s0.hoisted,
                !init_decl(*dir).ignore,
                at == init_at(*dir, 0),
            ensures
                found is None ==> script_relative is None,
                found is Some ==> (script_relative matches Some(rel) && rel@ == child_spec(base@, candidate_name(at))),
                init_script_of(*dir) == found,
                found matches Some(s) ==> class_name@ == script_class(s),
                found is None ==> class_name@ == class_or_folder(init_decl(*dir).class_name),
                found is None ==> source is None,
                found matches Some(sc) ==> (source matches Some(src) && t0.source_gives(
                    child_spec(base@, candidate_name(at)),
                    script_class(sc),
                    raw_text(named(*dir, candidate_name(at))->0),
                    Ok(src@),
                )),
            decreases 6 - i,
        {
            let (candidate, script) = init_candidate(i);
            if let Some(f) = file_named(dir, candidate) {
                let relative = child(base, candidate);
                self.files.push(copy_str(relative.as_str()));
                let raw = match &f.text {
                    Ok(t) => t.clone(),
                    Err(e) => return Err(fail_at(relative.as_str(), e.as_str())),
                };
                let text = match self.transform.source(relative.as_str(), script.class_name(), raw) {
                    Ok(t) => t,
                    Err(e) => return Err(e),
                };
                assert(init_at(*dir, i as int) == i);
                assert(relative@ == child_spec(base@, candidate_name(at)));
                class_name = String::from_str(script.class_name());
                source = Some(text);
                script_relative = Some(relative);
                proof {
                    found = Some(script);
                }
                break;
            }
            i = i + 1;
        }
        let ghost src: Seq<char> = if source is Some {
            source->0@
        } else {
            Seq::empty()
        };
        let mut node = Node::new(String::new(), copy_str(name), class_name);
        let ghost named0 = node@.name;
        let ghost src_props: Seq<(Seq<char>, JsonV)> = if source is Some {
            seq![("Source"@, JsonV::Text(source->0@))]
        } else {
            Seq::empty()
        };
        if let Some(text) = source {
            node.properties.insert(String::from_str("Source"), Json::Text(text));
        }
        assert(node@.properties == src_props);
        if let Some(relative) = script_relative {
            node.file_paths.push(relative);
        }
        if init_meta.is_some() {
            node.file_paths.push(meta_relative);
        }
        let ghost class_before = node@.class_name;
        proof {
            lemma_declared_keeps_class(node@, declared@);
        }
        let ghost before_declared = node@;
        proof {
            let fb = folder_base(*dir, base@, name@, src);
            assert(before_declared.file_paths =~= fb.file_paths);
            assert(before_declared.properties =~= fb.properties);
            assert(before_declared =~= fb);
        }
        apply_declaration(&mut node, &declared);
        proof {
            lemma_declared_node_name(before_declared, declared@);
            lemma_declared_node_props(before_declared, declared@);
        }
        let ghost h0 = hoisted_views(self.hoisted@);
        let entries = self.directory(dir, base, false)?;
        let ghost ev = entry_views(entries@);
        let ghost (ord, ford, nss, fhs, frs, ghs, hs) = choose|
            ord: Seq<int>,
            ford: Seq<int>,
            nss: Seq<Seq<NodeV>>,
            fhs: Seq<Seq<(Seq<char>, NodeV)>>,
            frs: Seq<Option<(NodeV, Option<Seq<char>>)>>,
            ghs: Seq<Seq<(Seq<char>, NodeV)>>,
            hs: Seq<(Seq<char>, NodeV)>,
        |
            #[trigger] dir_made(
                s0.transform,
                *dir,
                base@,
                false,
                views(s0.mounted@),
                views(s0.included@),
                views(s0.excluded@),
                ord,
                ford,
                nss,
                fhs,
                frs,
                ghs,
                ev,
                hs,
            ) && hoisted_views(self.hoisted@) == h0 + hs;
        proof {
            lemma_dir_made_below(
                s0.transform,
                *dir,
                base@,
                views(s0.mounted@),
                views(s0.included@),
                views(s0.excluded@),
                ord,
                ford,
                nss,
                fhs,
                frs,
                ghs,
                ev,
                hs,
            );
        }
        let ghost before_attach = node@;
        let kids = entries_nodes(entries);
        proof {
            lemma_attach_all_keeps(before_attach, node_views(kids@));
            assert(node_views(kids@) =~= ev.map_values(|e: (NodeV, Option<Seq<char>>)| e.0));
        }
        attach_each(&mut node, kids);
        assert(node@.class_name == class_before);
        let parent = declared.parent;
        proof {
            assert(dir_made(s0.transform, *dir, base@, false, Seq::empty(), Seq::empty(), Seq::empty(), ord, ford, nss, fhs, frs, ghs, ev, hs));
            assert(init_script_of(*dir) matches Some(sc) ==> s0.transform.source_gives(
                child_spec(base@, candidate_name(init_at(*dir, 0))),
                script_class(sc),
                raw_text(named(*dir, candidate_name(init_at(*dir, 0)))->0),
                Ok(src),
            ));
            assert(node@ == attach_all(declared_node(folder_base(*dir, base@, name@, src), init_decl(*dir)), ev.map_values(|e: (NodeV, Option<Seq<char>>)| e.0)));
            assert(opt_view(parent) == init_decl(*dir).parent);
            assert(folder_parts(
                s0.transform,
                *dir,
                base@,
                name@,
                Some((node@, opt_view(parent))),
                hs,
                src,
                ord,
                ford,
                nss,
                fhs,
                frs,
                ghs,
                ev,
            ));
            assert(entry_opt_view(Some((node, parent))) == Some((node@, opt_view(parent))));
            assert(!init_decl(*dir).ignore);
            lemma_folder_made_intro(s0.transform, *dir, base@, name@, Some((node@, opt_view(parent))), hs, src, ord, ford, nss, fhs, frs, ghs, ev);
            assert(folder_made(s0.transform, *dir, base@, name@, Some((node@, opt_view(parent))), hs));
        }
        Ok(Some((node, parent)))
    }

    /// The entries a folder makes: its files' nodes, with the declarations
    /// their sidecars give applied, then its subfolders' nodes. Below the
    /// top, nodes given a parent are hoisted; at the top only `meta.inst.json`
    /// and folders with an `init.meta.json` count.
    fn directory(&mut self, dir: &Folder, base: &str, top: bool) -> (r: Result<Vec<(Node, Option<String>)>, String>)
        ensures
            !top ==> (r matches Ok(es) ==> forall|i: int| 0 <= i < es@.len() ==> (#[trigger] es@[i]).1 is None),
            dir_ok(*dir, top) ==> r is Ok,
            r is Ok ==> final(self).mounts == old(self).mounts && final(self).transform == old(self).transform
                && final(self).mounted == old(self).mounted && final(self).included == old(self).included
                && final(self).excluded == old(self).excluded,
            r matches Ok(es) ==> exists|
                ord: Seq<int>,
                ford: Seq<int>,
                nss: Seq<Seq<NodeV>>,
                fhs: Seq<Seq<(Seq<char>, NodeV)>>,
                frs: Seq<Option<(NodeV, Option<Seq<char>>)>>,
                ghs: Seq<Seq<(Seq<char>, NodeV)>>,
                hs: Seq<(Seq<char>, NodeV)>,
            |
                #[trigger] dir_made(
                    old(self).transform,
                    *dir,
                    base@,
                    top,
                    views(old(self).mounted@),
                    views(old(self).included@),
                    views(old(self).excluded@),
                    ord,
                    ford,
                    nss,
                    fhs,
                    frs,
                    ghs,
                    entry_views(es@),
                    hs,
                ) && hoisted_views(final(self).hoisted@) == hoisted_views(old(self).hoisted@) + hs,
        decreases dir, 1int,
    {
        let ghost s0 = *old(self);
        let ord = visit_files(dir, top);
        let ford = visit_folders(dir, top);
        let ghost o = ints(ord@);
        let ghost fo = ints(ford@);
        proof {
            if dir_ok(*dir, top) {
                assert forall|k: int|
                    0 <= k < ord@.len() && classify_spec(dir.files@[#[trigger] ord@[k] as int].name@).0 is Sidecar
                        implies readable(dir.files@[ord@[k] as int]) by {
                    assert(o[k] == ord@[k] as int);
                    assert(entry_ok(dir.files@[ord@[k] as int], top));
                }
                assert forall|k: int|
                    0 <= k < ord@.len() && counted_at(dir.files@[#[trigger] ord@[k] as int], top) implies counted_ok(
                        dir.files@[ord@[k] as int],
                    ) by {
                    assert(o[k] == ord@[k] as int);
                    assert(entry_ok(dir.files@[ord@[k] as int], top));
                }
                assert forall|k: int|
                    0 <= k < ford@.len() && considered(dir.folders@[#[trigger] ford@[k] as int], top) implies folder_ok(
                        dir.folders@[ford@[k] as int],
                    ) by {
                    lemma_folders_ok_at(*dir, top, dir.folders@.len() as int, ford@[k] as int);
                }
            }
            assert forall|k: int| 0 <= k < ford@.len() implies !skipped_spec(dir.folders@[#[trigger] ford@[k] as int].name@, top) by {
                assert(fo[k] == ford@[k] as int);
            }
        }
        let sidecars = self.read_sidecars(dir, base, &ord)?;
        let ghost h1 = hoisted_views(self.hoisted@);
        let entries = self.file_part(dir, base, top, &ord, &sidecars)?;
        let ghost (nss, fhs) = choose|nss: Seq<Seq<NodeV>>, fhs: Seq<Seq<(Seq<char>, NodeV)>>|
            #[trigger] files_part_made(s0.transform, *dir, base@, top, o, nss, fhs) && entry_views(entries@)
                == file_entries(*dir, o, nss, sidecar_views(sidecars@), ord@.len() as int) && hoisted_views(
                self.hoisted@,
            ) == h1 + concat_all(fhs, fhs.len() as int);
        let ghost h2 = hoisted_views(self.hoisted@);
        let more = self.folder_part(dir, base, top, &ford)?;
        let ghost (frs, ghs) = choose|
            frs: Seq<Option<(NodeV, Option<Seq<char>>)>>,
            ghs: Seq<Seq<(Seq<char>, NodeV)>>,
        |
            #[trigger] folders_part_made(
                s0.transform,
                *dir,
                base@,
                top,
                views(s0.mounted@),
                views(s0.included@),
                views(s0.excluded@),
                fo,
                frs,
                ghs,
            ) && entry_views(more@) == somes(frs, frs.len() as int) && hoisted_views(self.hoisted@) == h2
                + concat_all(ghs, ghs.len() as int);
        let ghost h3 = hoisted_views(self.hoisted@);
        let ghost ev1 = entry_views(entries@);
        let ghost ev2 = entry_views(more@);
        let mut entries = entries;
        let mut more = more;
        entries.append(&mut more);
        let ghost all = entry_views(entries@);
        assert(all =~= ev1 + ev2);
        if top {
            proof {
                assert(hoisted_views(self.hoisted@) =~= hoisted_views(s0.hoisted@) + (concat_all(fhs, fhs.len() as int)
                    + concat_all(ghs, ghs.len() as int) + Seq::<(Seq<char>, NodeV)>::empty()));
                assert(dir_made(
                    s0.transform,
                    *dir,
                    base@,
                    top,
                    views(s0.mounted@),
                    views(s0.included@),
                    views(s0.excluded@),
                    o,
                    fo,
                    nss,
                    fhs,
                    frs,
                    ghs,
                    all,
                    concat_all(fhs, fhs.len() as int) + concat_all(ghs, ghs.len() as int) + Seq::<(Seq<char>, NodeV)>::empty(),
                ));
            }
            return Ok(entries);
        }
        let mut kept: Vec<(Node, Option<String>)> = Vec::new();
        let total = entries.len();
        let mut k: usize = 0;
        while k < total
            invariant
                k <= total,
                total == all.len(),
                entries@.len() == total - k,
                forall|j: int| 0 <= j < entries@.len() ==> (entries@[j].0@, opt_view(#[trigger] entries@[j].1)) == all[k + j],
                forall|j: int| 0 <= j < kept@.len() ==> (#[trigger] kept@[j]).1 is None,
                entry_views(kept@) == unparented(all, k as int),
                hoisted_views(self.hoisted@) == h3 + parented(all, k as int),
                self.mounts == s0.mounts && self.transform == s0.transform && self.mounted == s0.mounted
                    && self.included == s0.included && self.excluded == s0.excluded,
            decreases total - k,
        {
            let ghost rest = entries@;
            let ghost kv = entry_views(kept@);
            let ghost hv = hoisted_views(self.hoisted@);
            let (node, parent) = entries.remove(0);
            assert(entries@.len() == total - k - 1);
            assert forall|j: int| 0 <= j < entries@.len() implies (entries@[j].0@, opt_view(#[trigger] entries@[j].1)) == all[k + 1 + j] by {
                assert(entries@[j] == rest[j + 1]);
                assert((rest[j + 1].0@, opt_view(rest[j + 1].1)) == all[k + (j + 1)]);
            }
            assert((rest[0].0@, opt_view(rest[0].1)) == all[k as int]);
            match parent {
                Some(p) => {
                    self.hoisted.push((p, node));
                    assert(hoisted_views(self.hoisted@) =~= hv.push((all[k as int].1->0, all[k as int].0)));
                },
                None => {
                    kept.push((node, None));
                    assert(entry_views(kept@) =~= kv.push(all[k as int]));
                },
            }
            k = k + 1;
        }
        proof {
            assert(hoisted_views(self.hoisted@) =~= hoisted_views(s0.hoisted@) + (concat_all(fhs, fhs.len() as int)
                + concat_all(ghs, ghs.len() as int) + parented(all, all.len() as int)));
            assert(dir_made(
                s0.transform,
                *dir,
                base@,
                top,
                views(s0.mounted@),
                views(s0.included@),
                views(s0.excluded@),
                o,
                fo,
                nss,
                fhs,
                frs,
                ghs,
                entry_views(kept@),
                concat_all(fhs, fhs.len() as int) + concat_all(ghs, ghs.len() as int) + parented(all, all.len() as int),
            ));
        }
        Ok(kept)
    }

    /// The entries the subfolders visited make, in order.
    fn folder_part(&mut self, dir: &Folder, base: &str, top: bool, ford: &Vec<usize>) -> (r: Result<Vec<(Node, Option<String>)>, String>)
        requires
            forall|k: int| 0 <= k < ford@.len() ==> #[trigger] ford@[k] < dir.folders@.len(),
            forall|k: int| 0 <= k < ford@.len() ==> !skipped_spec(dir.folders@[#[trigger] ford@[k] as int].name@, top),
        ensures
            r matches Ok(es) ==> exists|
                frs: Seq<Option<(NodeV, Option<Seq<char>>)>>,
                ghs: Seq<Seq<(Seq<char>, NodeV)>>,
            |
                #[trigger] folders_part_made(
                    old(self).transform,
                    *dir,
                    base@,
                    top,
                    views(old(self).mounted@),
                    views(old(self).included@),
                    views(old(self).excluded@),
                    ints(ford@),
                    frs,
                    ghs,
                ) && entry_views(es@) == somes(frs, frs.len() as int) && hoisted_views(final(self).hoisted@)
                    == hoisted_views(old(self).hoisted@) + concat_all(ghs, ghs.len() as int),
            (forall|k: int|
                0 <= k < ford@.len() && considered(dir.folders@[#[trigger] ford@[k] as int], top) ==> folder_ok(
                    dir.folders@[ford@[k] as int],
                )) ==> r is Ok,
            r is Ok ==> final(self).mounts == old(self).mounts && final(self).transform == old(self).transform
                && final(self).mounted == old(self).mounted && final(self).included == old(self).included
                && final(self).excluded == old(self).excluded,
        decreases dir, 0int,
    {
        let ghost s0 = *old(self);
        let ghost fo = ints(ford@);
        let ghost mv = views(s0.mounted@);
        let ghost iv = views(s0.included@);
        let ghost xv = views(s0.excluded@);
        let ghost mut frs: Seq<Option<(NodeV, Option<Seq<char>>)>> = Seq::empty();
        let ghost mut ghs: Seq<Seq<(Seq<char>, NodeV)>> = Seq::empty();
        let mut entries: Vec<(Node, Option<String>)> = Vec::new();
        let mut i: usize = 0;
        while i < ford.len()
            invariant
                i <= ford@.len(),
                fo == ints(ford@),
                forall|k: int| 0 <= k < ford@.len() ==> #[trigger] ford@[k] < dir.folders@.len(),
                forall|k: int| 0 <= k < ford@.len() ==> !skipped_spec(dir.folders@[#[trigger] ford@[k] as int].name@, top),
                frs.len() == i,
                ghs.len() == i,
                folders_made(s0.transform, *dir, base@, top, mv, iv, xv, fo, frs, ghs, i as int),
                entry_views(entries@) == somes(frs, i as int),
                hoisted_views(self.hoisted@) == hoisted_views(s0.hoisted@) + concat_all(ghs, i as int),
                self.mounts == s0.mounts && self.transform == s0.transform && self.mounted == s0.mounted
                    && self.included == s0.included && self.excluded == s0.excluded,
                mv == views(s0.mounted@),
                iv == views(s0.included@),
                xv == views(s0.excluded@),
            decreases ford@.len() - i,
        {
            let at = ford[i];
            assert(fo[i as int] == at as int);
            let sub = &dir.folders[at];
            let name = sub.name.as_str();
            let ghost frs0 = frs;
            let ghost ghs0 = ghs;
            let ghost e_before = entry_views(entries@);
            let ghost h_before = hoisted_views(self.hoisted@);
            let passes = if top {
                let a = same_str(name, "scripts");
                let b = file_named(sub, "init.meta.json").is_some();
                let c = contains_string(&self.mounted, name);
                let w = wanted(&self.included, &self.excluded, name);
                proof {
                    reveal_strlit("scripts");
                }
                assert(a == (sub.name@ == "scripts"@));
                assert(b == has_file(*sub, "init.meta.json"@));
                assert(self.mounted == s0.mounted);
                assert(views(self.mounted@) == mv);
                assert(c == mv.contains(sub.name@));
                assert(w == wanted_spec(iv, xv, sub.name@));
                !a && b && !c && w
            } else {
                true
            };
            assert(passes == passed(*sub, top, mv, iv, xv));
            if passes {
                proof {
                    assert(decreases_to!(*dir => dir.folders@[at as int]));
                }
                let sub_base = child(base, name);
                let answer = self.folder(sub, sub_base.as_str(), name)?;
                let ghost av = entry_opt_view(answer);
                let ghost hs = choose|hs: Seq<(Seq<char>, NodeV)>|
                    folder_made(s0.transform, *sub, sub_base@, name@, av, hs) && hoisted_views(self.hoisted@)
                        == h_before + hs;
                if let Some(entry) = answer {
                    entries.push(entry);
                    assert(entry_views(entries@) =~= e_before.push(av->0));
                }
                proof {
                    frs = frs.push(av);
                    ghs = ghs.push(hs);
                }
            } else {
                proof {
                    frs = frs.push(None);
                    ghs = ghs.push(Seq::empty());
                    assert(hoisted_views(self.hoisted@) =~= h_before + Seq::<(Seq<char>, NodeV)>::empty());
                }
            }
            proof {
                lemma_folders_made_prefix(s0.transform, *dir, base@, top, mv, iv, xv, fo, frs, ghs, frs0, ghs0, i as int);
                lemma_somes_prefix(frs, frs0, i as int);
                lemma_concat_prefix(ghs, ghs0, i as int);
                assert(concat_all(ghs, i + 1) == concat_all(ghs, i as int) + ghs[i as int]);
                assert(hoisted_views(self.hoisted@) =~= hoisted_views(s0.hoisted@) + concat_all(ghs, i + 1));
                if frs[i as int] is None {
                    assert(entry_views(entries@) =~= somes(frs, i + 1));
                }
            }
            i = i + 1;
        }
        proof {
            assert(folders_part_made(s0.transform, *dir, base@, top, mv, iv, xv, fo, frs, ghs));
        }
        Ok(entries)
    }

    /// The nodes of the children a service declares that are not ignored,
    /// each with what its `$Path` gives merged in; a warning for each
    /// `$Path` that points at nothing.
    #[verifier::rlimit(40)]
    fn service_children(&mut self, declared: &Meta) -> (r: Result<Vec<Node>, String>)
        ensures
            r is Ok ==> final(self).mounts == old(self).mounts && final(self).transform == old(self).transform
                && final(self).included == old(self).included && final(self).excluded == old(self).excluded,
            r matches Ok(built) ==> exists|got: Seq<Option<NodeV>>, ghs: Seq<Seq<(Seq<char>, NodeV)>>|
                #[trigger] children_made(old(self).transform, old(self).mounts@, declared@, got, ghs, node_views(built@))
                    && hoisted_views(final(self).hoisted@) == hoisted_views(old(self).hoisted@) + concat_all(
                    ghs,
                    declared@.children.len() as int,
                ),
            r is Ok ==> views(final(self).mounted@) == views(old(self).mounted@) + children_aliases(
                old(self).mounts@,
                declared@,
                declared@.children.len() as int,
            ),
            r matches Ok(built) ==> forall|c: int|
                0 <= c < declared@.children.len() && !(#[trigger] declared@.children[c]).1.ignore ==> exists|k: int|
                    0 <= k < built@.len() && (#[trigger] built@[k])@.name == declared_name(
                        declared@.children[c].0,
                        declared@.children[c].1,
                    ),
            (forall|k: int| 0 <= k < old(self).mounts@.len() ==> mount_ok(#[trigger] old(self).mounts@[k].1))
                ==> r is Ok,
    {
        let ghost s0 = *old(self);
        let ghost d = declared@;
        let ghost ok = forall|k: int| 0 <= k < s0.mounts@.len() ==> mount_ok(#[trigger] s0.mounts@[k].1);
        let mut built: Vec<Node> = Vec::new();
        let ghost mut got: Seq<Option<NodeV>> = Seq::empty();
        let ghost mut ghs: Seq<Seq<(Seq<char>, NodeV)>> = Seq::empty();
        proof {
            assert(node_views(built@) =~= Seq::<NodeV>::empty());
            assert(views(self.mounted@) + children_aliases(s0.mounts@, d, 0) =~= views(self.mounted@));
            assert(hoisted_views(self.hoisted@) + concat_all(ghs, 0) =~= hoisted_views(self.hoisted@));
        }
        let mut j: usize = 0;
        while j < declared.children.len()
            invariant
                d == declared@,
                j <= d.children.len(),
                d.children.len() == declared.children@.len(),
                self.mounts == s0.mounts,
                self.transform == s0.transform,
                self.included == s0.included,
                self.excluded == s0.excluded,
                ok == forall|k: int| 0 <= k < s0.mounts@.len() ==> mount_ok(#[trigger] s0.mounts@[k].1),
                s0 == *old(self),
                forall|c: int|
                    0 <= c < j && !(#[trigger] d.children[c]).1.ignore ==> exists|k: int|
                        0 <= k < built@.len() && (#[trigger] built@[k])@.name == declared_name(
                            d.children[c].0,
                            d.children[c].1,
                        ),
                got.len() == j,
                ghs.len() == j,
                node_views(built@) == children_built(d, got, j as int),
                forall|c: int|
                    0 <= c < j ==> child_made(s0.transform, s0.mounts@, #[trigger] d.children[c], got[c], ghs[c]),
                views(self.mounted@) == views(s0.mounted@) + children_aliases(s0.mounts@, d, j as int),
                hoisted_views(self.hoisted@) == hoisted_views(s0.hoisted@) + concat_all(ghs, j as int),
            decreases declared.children@.len() - j,
        {
            let name = &declared.children[j].0;
            let child_meta = &declared.children[j].1;
            assert(d.children[j as int] == (name@, child_meta@));
            let ghost h0 = hoisted_views(self.hoisted@);
            let ghost prev_views = node_views(built@);
            let ghost mut g: Option<NodeV> = None;
            let ghost mut hh: Seq<(Seq<char>, NodeV)> = Seq::empty();
            if !child_meta.ignore {
                let mut node = Node::new(String::new(), name.clone(), class_or_folder_of(&child_meta.class_name));
                let ghost n0 = node@;
                apply_declaration(&mut node, child_meta);
                proof {
                    lemma_declared_node_name(n0, child_meta@);
                }
                if let Some(target) = &child_meta.path {
                    proof {
                        lemma_mount_from_in(s0.mounts@, target@, 0);
                        if ok {
                            if let Some(m) = mount_for(s0.mounts@, target@) {
                                let k = choose|k: int| 0 <= k < s0.mounts@.len() && (#[trigger] s0.mounts@[k]).1 == m;
                                assert(mount_ok(s0.mounts@[k].1));
                            }
                        }
                    }
                    let res = self.mount(target.as_str(), name.as_str());
                    assert(ok ==> res is Ok);
                    let o = res?;
                    proof {
                        g = opt_node_view(o);
                        hh = choose|hs: Seq<(Seq<char>, NodeV)>|
                            #[trigger] mount_made(s0.transform, s0.mounts@, target@, name@, opt_node_view(o), hs)
                                && hoisted_views(self.hoisted@) == h0 + hs;
                    }
                    if let Some(mounted) = o {
                        proof {
                            lemma_merged_paths(node@, mounted@);
                        }
                        merge(&mut node, mounted);
                    } else {
                        let mut m = String::from_str("$Path \"");
                        push_str(&mut m, target.as_str());
                        push_str(&mut m, "\" does not exist");
                        self.warnings.push(m);
                    }
                }
                let ghost prev = built@;
                assert(node@ == child_node(name@, child_meta@, g));
                built.push(node);
                proof {
                    assert(node_views(built@) =~= prev_views.push(node@));
                    assert forall|c: int|
                        0 <= c < j + 1 && !(#[trigger] d.children[c]).1.ignore implies exists|k: int|
                            0 <= k < built@.len() && (#[trigger] built@[k])@.name == declared_name(
                                d.children[c].0,
                                d.children[c].1,
                            ) by {
                        if c < j {
                            let k = choose|k: int|
                                0 <= k < prev.len() && (#[trigger] prev[k])@.name == declared_name(
                                    d.children[c].0,
                                    d.children[c].1,
                                );
                            assert(built@[k] == prev[k]);
                        } else {
                            assert(built@[prev.len() as int] == node);
                        }
                    }
                }
            }
            proof {
                let old_got = got;
                let old_ghs = ghs;
                got = got.push(g);
                ghs = ghs.push(hh);
                lemma_children_built_prefix(d, old_got, got, j as int);
                lemma_concat_prefix(old_ghs, ghs, j as int);
                assert(child_made(s0.transform, s0.mounts@, d.children[j as int], got[j as int], ghs[j as int]));
                assert(views(self.mounted@) =~= views(s0.mounted@) + children_aliases(s0.mounts@, d, j + 1));
                assert(hoisted_views(self.hoisted@) =~= hoisted_views(s0.hoisted@) + concat_all(ghs, j + 1));
            }
            j = j + 1;
        }
        assert(children_made(s0.transform, s0.mounts@, d, got, ghs, node_views(built@)));
        assert(forall|c: int|
            0 <= c < declared@.children.len() && !(#[trigger] declared@.children[c]).1.ignore ==> exists|k: int|
                0 <= k < built@.len() && (#[trigger] built@[k])@.name == declared_name(
                    declared@.children[c].0,
                    declared@.children[c].1,
                ));
        assert(hoisted_views(self.hoisted@) == hoisted_views(s0.hoisted@) + concat_all(ghs, d.children.len() as int));
        let r = Ok(built);
        assert(r matches Ok(bb) && bb == built);
        r
    }

    /// The node a `$Path` on a declared child makes, named after the child;
    /// nothing where the path leads nowhere.
    fn mount(&mut self, target: &str, name: &str) -> (r: Result<Option<Node>, String>)
        ensures
            (forall|k: int| 0 <= k < old(self).mounts@.len() ==> (#[trigger] old(self).mounts@[k]).0@ != target@)
                ==> r matches Ok(None),
            match mount_for(old(self).mounts@, target@) {
                Some(Mount::Dir { folder, .. }) => folder_gives(folder, name@, r),
                Some(Mount::File { file, base }) => file_gives(file, base@, name@, r),
                _ => r matches Ok(None),
            },
            r is Ok ==> final(self).mounts == old(self).mounts && final(self).transform == old(self).transform
                && final(self).included == old(self).included && final(self).excluded == old(self).excluded,
            r is Ok ==> views(final(self).mounted@) == views(old(self).mounted@) + alias_of(
                mount_for(old(self).mounts@, target@),
            ),
            r matches Ok(o) ==> exists|hs: Seq<(Seq<char>, NodeV)>|
                #[trigger] mount_made(old(self).transform, old(self).mounts@, target@, name@, opt_node_view(o), hs)
                    && hoisted_views(final(self).hoisted@) == hoisted_views(old(self).hoisted@) + hs,
    {
        let ghost s0 = *old(self);
        match self.lookup(target) {
            Some(Mount::Dir { folder, base, alias }) => {
                if let Some(a) = alias {
                    self.mounted.push(a.clone());
                }
                let ghost h0 = hoisted_views(self.hoisted@);
                let answer = self.folder(folder, base.as_str(), name)?;
                let ghost av = entry_opt_view(answer);
                let ghost hs = choose|hs: Seq<(Seq<char>, NodeV)>|
                    folder_made(s0.transform, *folder, base@, name@, av, hs) && hoisted_views(self.hoisted@) == h0 + hs;
                let out = match answer {
                    Some((node, _)) => Some(node),
                    None => None,
                };
                proof {
                    assert(picked(av));
                    assert(opt_node_view(out) == answer_node(av));
                    assert(mount_made(s0.transform, s0.mounts@, target@, name@, opt_node_view(out), hs));
                }
                Ok(out)
            },
            Some(Mount::File { file, base }) => {
                let (kind, _) = classify(file.name.as_str());
                let ghost h0 = hoisted_views(self.hoisted@);
                let nodes = self.file(file, base.as_str(), &kind, name)?;
                let ghost ns = node_views(nodes@);
                let ghost hs = choose|hs: Seq<(Seq<char>, NodeV)>|
                    file_made(s0.transform, *file, base@, kind@, name@, ns, hs) && hoisted_views(self.hoisted@) == h0 + hs;
                proof {
                    assert(picked(ns));
                }
                let mut nodes = nodes;
                if nodes.len() == 0 {
                    proof {
                        assert(mount_made(s0.transform, s0.mounts@, target@, name@, None, hs));
                    }
                    return Ok(None);
                }
                let mut node = nodes.remove(0);
                node.name = copy_str(name);
                assert(node@.name == name@);
                proof {
                    assert(node@ == (NodeV { name: name@, ..ns[0] }));
                    assert(mount_made(s0.transform, s0.mounts@, target@, name@, Some(node@), hs));
                }
                Ok(Some(node))
            },
            _ => {
                proof {
                    assert(hoisted_views(self.hoisted@) =~= hoisted_views(s0.hoisted@) + Seq::<(Seq<char>, NodeV)>::empty());
                    assert(mount_made(s0.transform, s0.mounts@, target@, name@, None, Seq::empty()));
                }
                Ok(None)
            },
        }
    }

    /// What the folder a service's `$Path` points at holds, as a node named
    /// after the service's last part; nothing where it is not a folder.
    fn contents(&mut self, target: &str, service: &str) -> (r: Result<Option<Node>, String>)
        ensures
            (forall|k: int| 0 <= k < old(self).mounts@.len() ==> (#[trigger] old(self).mounts@[k]).0@ != target@)
                ==> r matches Ok(None),
            match mount_for(old(self).mounts@, target@) {
                Some(Mount::Dir { folder, .. }) => folder_gives(folder, last_part(service@), r),
                _ => r matches Ok(None),
            },
            r is Ok ==> final(self).mounts == old(self).mounts && final(self).transform == old(self).transform
                && final(self).included == old(self).included && final(self).excluded == old(self).excluded,
            r is Ok ==> views(final(self).mounted@) == views(old(self).mounted@) + alias_of(
                mount_for(old(self).mounts@, target@),
            ),
            r matches Ok(o) ==> exists|hs: Seq<(Seq<char>, NodeV)>|
                #[trigger] contents_made(old(self).transform, old(self).mounts@, target@, service@, opt_node_view(o), hs)
                    && hoisted_views(final(self).hoisted@) == hoisted_views(old(self).hoisted@) + hs,
    {
        let ghost s0 = *old(self);
        match self.lookup(target) {
            Some(Mount::Dir { folder, base, alias }) => {
                if let Some(a) = alias {
                    self.mounted.push(a.clone());
                }
                let parts = split(service);
                let name = if parts.len() > 0 {
                    parts[parts.len() - 1].clone()
                } else {
                    String::new()
                };
                assert(name@ == last_part(service@));
                let ghost h0 = hoisted_views(self.hoisted@);
                let answer = self.folder(folder, base.as_str(), name.as_str())?;
                let ghost av = entry_opt_view(answer);
                let ghost hs = choose|hs: Seq<(Seq<char>, NodeV)>|
                    folder_made(s0.transform, *folder, base@, name@, av, hs) && hoisted_views(self.hoisted@) == h0 + hs;
                let out = match answer {
                    Some((node, _)) => Some(node),
                    None => None,
                };
                proof {
                    assert(picked(av));
                    assert(opt_node_view(out) == answer_node(av));
                    assert(contents_made(s0.transform, s0.mounts@, target@, service@, opt_node_view(out), hs));
                }
                Ok(out)
            },
            _ => {
                proof {
                    assert(hoisted_views(self.hoisted@) =~= hoisted_views(s0.hoisted@) + Seq::<(Seq<char>, NodeV)>::empty());
                    assert(contents_made(s0.transform, s0.mounts@, target@, service@, None, Seq::empty()));
                }
                let mut m = String::from_str("\"");
                push_str(&mut m, service);
                push_str(&mut m, "\" has $Path \"");
                push_str(&mut m, target);
                push_str(&mut m, "\", which needs to be a folder that exists");
                self.warnings.push(m);
                Ok(None)
            },
        }
    }
}

/// The nodes of a list of entries, in order.
fn entries_nodes(entries: Vec<(Node, Option<String>)>) -> (r: Vec<Node>)
    ensures
        r@.len() == entries@.len(),
        forall|i: int| 0 <= i < r@.len() ==> #[trigger] r@[i] == entries@[i].0,
{
    let ghost all = entries@;
    let mut entries = entries;
    let total = entries.len();
    let mut out: Vec<Node> = Vec::new();
    let mut i: usize = 0;
    assert(all.skip(0) =~= all);
    while entries.len() > 0
        invariant
            i + entries@.len() == all.len(),
            all.len() == total,
            entries@ == all.skip(i as int),
            out@.len() == i,
            forall|k: int| 0 <= k < i ==> #[trigger] out@[k] == all[k].0,
        decreases entries@.len(),
    {
        let (node, _) = entries.remove(0);
        assert(entries@ =~= all.skip(i + 1));
        out.push(node);
        i = i + 1;
    }
    out
}

/// The `$Path` targets of the children a service declares, in order.
pub open spec fn child_targets(cs: Seq<(Seq<char>, MetaV)>) -> Seq<Seq<char>>
    decreases cs.len(),
{
    if cs.len() == 0 {
        Seq::empty()
    } else {
        match cs.last().1.path {
            Some(t) => child_targets(cs.drop_last()).push(t),
            None => child_targets(cs.drop_last()),
        }
    }
}

/// The `$Path` targets of the services, in order: for each, those of the
/// children it declares, then its own.
pub open spec fn targets_spec(services: Seq<(Seq<char>, MetaV)>) -> Seq<Seq<char>>
    decreases services.len(),
{
    if services.len() == 0 {
        Seq::empty()
    } else {
        let d = services.last().1;
        targets_spec(services.drop_last()) + child_targets(d.children) + match d.path {
            Some(t) => seq![t],
            None => Seq::empty(),
        }
    }
}

/// What `$Path` targets the manifest names (see `targets_spec`): what has
/// to be read from disk besides the project folder.
pub fn mount_targets(config: &Config) -> (r: Vec<String>)
    ensures
        views(r@) == targets_spec(config@.services),
{
    let ghost ss = config@.services;
    let mut out: Vec<String> = Vec::new();
    let mut i: usize = 0;
    while i < config.services.len()
        invariant
            i <= config.services@.len(),
            ss == config@.services,
            ss.len() == config.services@.len(),
            views(out@) == targets_spec(ss.take(i as int)),
        decreases config.services@.len() - i,
    {
        let declared = &config.services[i].1;
        let ghost d = declared@;
        assert(ss[i as int] == (config.services@[i as int].0@, d));
        assert(ss.take(i + 1).drop_last() =~= ss.take(i as int));
        let ghost base = views(out@);
        let mut j: usize = 0;
        while j < declared.children.len()
            invariant
                j <= declared.children@.len(),
                d == declared@,
                d.children.len() == declared.children@.len(),
                views(out@) == base + child_targets(d.children.take(j as int)),
            decreases declared.children@.len() - j,
        {
            assert(d.children[j as int] == (declared.children@[j as int].0@, declared.children@[j as int].1@));
            assert(d.children.take(j + 1).drop_last() =~= d.children.take(j as int));
            if let Some(target) = &declared.children[j].1.path {
                let ghost prev = views(out@);
                out.push(target.clone());
                assert(views(out@) =~= prev.push(target@));
            }
            j = j + 1;
        }
        assert(d.children.take(j as int) =~= d.children);
        let ghost mid = views(out@);
        if let Some(target) = &declared.path {
            out.push(target.clone());
            assert(views(out@) =~= mid.push(target@));
        }
        assert(views(out@) =~= targets_spec(ss.take(i + 1)));
        i = i + 1;
    }
    assert(ss.take(i as int) =~= ss);
    out
}

/// The children a service declares, `got` from their `$Path`s, hoisting
/// `ghs`, make the nodes `built`, as the transform's answers allow.
pub open spec fn children_made<T: Transform>(
    t: &T,
    mounts: Seq<(String, Mount)>,
    d: MetaV,
    got: Seq<Option<NodeV>>,
    ghs: Seq<Seq<(Seq<char>, NodeV)>>,
    built: Seq<NodeV>,
) -> bool {
    &&& got.len() == d.children.len()
    &&& ghs.len() == d.children.len()
    &&& forall|c: int|
        0 <= c < d.children.len() ==> child_made(t, mounts, #[trigger] d.children[c], got[c], ghs[c])
    &&& built == children_built(d, got, d.children.len() as int)
}

/// Places the service at `path`, declared as `declared`, in the tree: its
/// node made on the way, filled from `contents`, given its declared
/// properties, attributes and tags, and `built` attached.
fn place_service(
    tree: &mut Tree,
    path: &String,
    declared: &Meta,
    contents: Option<Node>,
    built: Vec<Node>,
    Ghost(svcs): Ghost<Seq<(Seq<char>, MetaV)>>,
    Ghost(i): Ghost<int>,
)
    requires
        0 <= i < svcs.len(),
        svcs[i] == (path@, declared@),
        services_in(old(tree)@, svcs, i),
        forall|c: int|
            0 <= c < declared@.children.len() && !(#[trigger] declared@.children[c]).1.ignore ==> exists|k: int|
                0 <= k < built@.len() && (#[trigger] built@[k])@.name == declared_name(
                    declared@.children[c].0,
                    declared@.children[c].1,
                ),
    ensures
        final(tree)@ == service_placed(old(tree)@, path@, declared@, opt_node_view(contents), node_views(built@)),
        services_in(final(tree)@, svcs, i + 1),
        final(tree)@.name == old(tree)@.name,
        final(tree)@.class_name == old(tree)@.class_name,
{
    let ghost d = declared@;
    let parts = split(path.as_str());
    let ghost b = tree@;
    let ghost p = views(parts@);
    let slot = tree.reserve(parts.as_slice());
    let ghost r0 = slot@;
    if let Some(c) = contents {
        proof {
            lemma_filled_keeps(slot@, c@);
            lemma_filled_paths(slot@, c@);
        }
        fill(slot, c);
    }
    let ghost before_apply = slot@;
    apply(slot, declared);
    proof {
        lemma_same_children_paths(before_apply, slot@);
        lemma_keeps_paths_trans(r0, before_apply, slot@);
    }
    let ghost before_attach = slot@;
    let ghost bv = node_views(built@);
    let ghost bs = built@;
    proof {
        lemma_attach_all_keeps(before_attach, bv);
        lemma_attach_all_paths(before_attach, bv);
    }
    attach_each(slot, built);
    assert(slot@.name == r0.name && slot@.class_name == r0.class_name);
    proof {
        lemma_keeps_paths_trans(r0, before_attach, slot@);
        lemma_attach_all_has_children(before_attach, bv);
        if p.len() > 0 {
            lemma_replaced_keeps(b, p, Seq::empty(), 0, slot@);
        }
        lemma_replaced_keeps_paths(b, p, Seq::empty(), 0, slot@);
        assert forall|c: int|
            0 <= c < d.children.len() && !(#[trigger] d.children[c]).1.ignore implies has_path(
            slot@,
            seq![declared_name(d.children[c].0, d.children[c].1)],
        ) by {
            let k = choose|k: int|
                0 <= k < bs.len() && (#[trigger] bs[k])@.name == declared_name(
                    d.children[c].0,
                    d.children[c].1,
                );
            assert(bv[k] == bs[k]@);
        }
    }
    let ghost t1 = tree@;
    proof {
        assert(p == split_spec(svcs[i].0));
        lemma_services_kept(b, t1, svcs, i);
        assert forall|s: int, c: int|
            0 <= s < i + 1 && 0 <= c < svcs[s].1.children.len() && !(#[trigger] svcs[s].1.children[c]).1.ignore
                implies has_path(
                t1,
                split_spec(svcs[s].0).push(declared_name(svcs[s].1.children[c].0, svcs[s].1.children[c].1)),
            ) by {
            if s == i {
                let q = seq![declared_name(d.children[c].0, d.children[c].1)];
                assert(d.children[c] == svcs[s].1.children[c]);
                assert(has_path(slot@, q));
                assert(p + q =~= p.push(declared_name(d.children[c].0, d.children[c].1)));
            }
        }
    }
}

/// The instance tree of a project, from its settings, its folder as read
/// from disk, and what its `$Path` targets point at; with the files that
/// went into it, relative to the project folder. Services come first, then
/// the top-level entries under their parent or the project's default, then
/// whatever was hoisted; the tree ends sorted by name with every id set to
/// the path of names that leads to it.
pub fn build_with<T: Transform>(
    config: &Config,
    root: &Folder,
    mounts: &Vec<(String, Mount)>,
    transform: &T,
) -> (r: Result<(Tree, Vec<String>, Vec<String>), String>)
    ensures
        r matches Ok((tree, _, _)) ==> exists|
            gots: Seq<Seq<Option<NodeV>>>,
            ghss: Seq<Seq<Seq<(Seq<char>, NodeV)>>>,
            conts: Seq<Option<NodeV>>,
            chss: Seq<Seq<(Seq<char>, NodeV)>>,
            ord: Seq<int>,
            ford: Seq<int>,
            nss: Seq<Seq<NodeV>>,
            fhs: Seq<Seq<(Seq<char>, NodeV)>>,
            frs: Seq<Option<(NodeV, Option<Seq<char>>)>>,
            ghs: Seq<Seq<(Seq<char>, NodeV)>>,
            es: Seq<(NodeV, Option<Seq<char>>)>,
            dhs: Seq<(Seq<char>, NodeV)>,
        |
            #[trigger] build_made(
                transform,
                config@,
                *root,
                mounts@,
                tree@,
                gots,
                ghss,
                conts,
                chss,
                ord,
                ford,
                nss,
                fhs,
                frs,
                ghs,
                es,
                dhs,
            ),
        r matches Ok((tree, _, _)) ==> tree@.name == config.name@ && tree@.class_name == "DataModel"@,
        r matches Ok((tree, _, _)) ==> services_in(tree@, config@.services, config@.services.len() as int),
        (dir_ok(*root, true) && forall|k: int| 0 <= k < mounts@.len() ==> mount_ok(#[trigger] mounts@[k].1))
            ==> r is Ok,
{
    let ghost ok = dir_ok(*root, true) && forall|k: int|
        0 <= k < mounts@.len() ==> mount_ok(#[trigger] mounts@[k].1);
    let ghost svcs = config@.services;
    let ghost start = new_tree(config.name@);
    let mut tree = Tree::new(config.name.as_str());
    let mut scanner = Scanner {
        transform,
        mounts,
        hoisted: Vec::new(),
        files: Vec::new(),
        included: copy_strings(&config.included),
        excluded: copy_strings(&config.excluded),
        mounted: Vec::new(),
        warnings: Vec::new(),
    };
    let ghost mut gots: Seq<Seq<Option<NodeV>>> = Seq::empty();
    let ghost mut ghss: Seq<Seq<Seq<(Seq<char>, NodeV)>>> = Seq::empty();
    let ghost mut conts: Seq<Option<NodeV>> = Seq::empty();
    let ghost mut chss: Seq<Seq<(Seq<char>, NodeV)>> = Seq::empty();
    proof {
        assert(views(scanner.mounted@) =~= Seq::<Seq<char>>::empty());
        assert(hoisted_views(scanner.hoisted@) =~= Seq::<(Seq<char>, NodeV)>::empty());
    }
    let mut i: usize = 0;
    while i < config.services.len()
        invariant
            tree@.name == config.name@,
            tree@.class_name == "DataModel"@,
            i <= config@.services.len(),
            svcs == config@.services,
            svcs.len() == config.services@.len(),
            start == new_tree(config.name@),
            services_in(tree@, svcs, i as int),
            scanner.mounts == mounts,
            scanner.transform == transform,
            views(scanner.included@) == config@.included,
            views(scanner.excluded@) == config@.excluded,
            ok == (dir_ok(*root, true) && forall|k: int|
                0 <= k < mounts@.len() ==> mount_ok(#[trigger] mounts@[k].1)),
            gots.len() == i,
            ghss.len() == i,
            conts.len() == i,
            chss.len() == i,
            tree@ == services_tree(start, svcs, conts, gots, i as int),
            forall|s: int|
                0 <= s < i ==> service_made(
                    transform,
                    mounts@,
                    #[trigger] svcs[s].0,
                    svcs[s].1,
                    gots[s],
                    ghss[s],
                    conts[s],
                    chss[s],
                ),
            views(scanner.mounted@) == services_aliases(mounts@, svcs, i as int),
            hoisted_views(scanner.hoisted@) == services_hoisted(ghss, chss, i as int),
        decreases config.services@.len() - i,
    {
        let path = &config.services[i].0;
        let declared = &config.services[i].1;
        let ghost d = declared@;
        proof {
            assert(svcs[i as int] == (path@, d));
        }
        let ghost h0 = hoisted_views(scanner.hoisted@);
        let built = scanner.service_children(declared)?;
        let ghost gw: (Seq<Option<NodeV>>, Seq<Seq<(Seq<char>, NodeV)>>) = choose|
            got: Seq<Option<NodeV>>,
            ghs: Seq<Seq<(Seq<char>, NodeV)>>,
        |
            #[trigger] children_made(transform, mounts@, d, got, ghs, node_views(built@)) && hoisted_views(
                scanner.hoisted@,
            ) == h0 + concat_all(ghs, d.children.len() as int);
        let ghost got = gw.0;
        let ghost ghs = gw.1;
        let ghost built_views = node_views(built@);
        let ghost h1 = hoisted_views(scanner.hoisted@);
        let ghost mut chs: Seq<(Seq<char>, NodeV)> = Seq::empty();
        let contents = match &declared.path {
            Some(target) => {
                proof {
                    lemma_mount_from_in(mounts@, target@, 0);
                }
                let c = scanner.contents(target.as_str(), path.as_str())?;
                proof {
                    chs = choose|hs: Seq<(Seq<char>, NodeV)>|
                        #[trigger] contents_made(transform, mounts@, target@, path@, opt_node_view(c), hs)
                            && hoisted_views(scanner.hoisted@) == h1 + hs;
                }
                c
            },
            None => None,
        };
        let ghost cont = opt_node_view(contents);
        let ghost b = tree@;
        place_service(&mut tree, path, declared, contents, built, Ghost(svcs), Ghost(i as int));
        proof {
            let old_gots = gots;
            let old_ghss = ghss;
            let old_conts = conts;
            let old_chss = chss;
            gots = gots.push(got);
            ghss = ghss.push(ghs);
            conts = conts.push(cont);
            chss = chss.push(chs);
            lemma_services_tree_prefix(start, svcs, old_conts, old_gots, conts, gots, i as int);
            lemma_services_hoisted_prefix(old_ghss, old_chss, ghss, chss, i as int);
            assert(tree@ == services_tree(start, svcs, conts, gots, i + 1));
            assert(service_made(transform, mounts@, svcs[i as int].0, svcs[i as int].1, got, ghs, cont, chs));
            assert(views(scanner.mounted@) =~= services_aliases(mounts@, svcs, i + 1));
            assert(hoisted_views(scanner.hoisted@) =~= services_hoisted(ghss, chss, i + 1));
        }
        i = i + 1;
    }
    let ghost t1 = tree@;
    let ghost n = svcs.len() as int;
    let ghost hs_before = hoisted_views(scanner.hoisted@);
    let ghost aliases = views(scanner.mounted@);
    proof {
        reveal_strlit("");
        assert(""@ =~= Seq::<char>::empty());
    }
    let entries = scanner.directory(root, "", true)?;
    let ghost all = entries@;
    let ghost ev = entry_views(all);
    let ghost w: (
        Seq<int>,
        Seq<int>,
        Seq<Seq<NodeV>>,
        Seq<Seq<(Seq<char>, NodeV)>>,
        Seq<Option<(NodeV, Option<Seq<char>>)>>,
        Seq<Seq<(Seq<char>, NodeV)>>,
        Seq<(Seq<char>, NodeV)>,
    ) = choose|
        ord: Seq<int>,
        ford: Seq<int>,
        nss: Seq<Seq<NodeV>>,
        fhs: Seq<Seq<(Seq<char>, NodeV)>>,
        frs: Seq<Option<(NodeV, Option<Seq<char>>)>>,
        ghs: Seq<Seq<(Seq<char>, NodeV)>>,
        hs: Seq<(Seq<char>, NodeV)>,
    |
        #[trigger] dir_made(
            transform,
            *root,
            Seq::empty(),
            true,
            aliases,
            config@.included,
            config@.excluded,
            ord,
            ford,
            nss,
            fhs,
            frs,
            ghs,
            ev,
            hs,
        ) && hoisted_views(scanner.hoisted@) == hs_before + hs;
    let ghost hd = scanner.hoisted@;
    let ghost default = config@.default_parent;
    let mut entries = entries;
    let total = entries.len();
    let mut k: usize = 0;
    assert(all.skip(0) =~= all);
    while k < total
        invariant
            tree@.name == config.name@,
            tree@.class_name == "DataModel"@,
            services_in(tree@, svcs, svcs.len() as int),
            svcs == config@.services,
            default == config@.default_parent,
            total == all.len(),
            ev == entry_views(all),
            k <= total,
            entries@ == all.skip(k as int),
            tree@ == entries_placed(t1, ev, default, k as int),
            scanner.hoisted@ == hd,
        decreases total - k,
    {
        let (node, parent) = entries.remove(0);
        assert(entries@ =~= all.skip(k + 1));
        assert(all[k as int] == (node, parent));
        let parent = match parent {
            Some(p) => Some(p),
            None => match &config.default_parent {
                Some(d) => Some(d.clone()),
                None => None,
            },
        };
        if let Some(p) = parent {
            proof {
                lemma_placed_keeps(tree@, p@, node@);
                lemma_placed_paths(tree@, p@, node@);
            }
            place(&mut tree, p.as_str(), node);
        } else {
            let mut m = String::from_str("\"");
            push_str(&mut m, node.name.as_str());
            push_str(&mut m, "\" has no $Parent and the project has no $Default, skipping it");
            scanner.warnings.push(m);
        }
        k = k + 1;
    }
    let ghost t2 = tree@;
    let mut hoisted = Vec::new();
    std::mem::swap(&mut hoisted, &mut scanner.hoisted);
    let ghost hall = hoisted@;
    let ghost all_hs = hoisted_views(hall);
    let total = hoisted.len();
    let mut k: usize = 0;
    assert(hall.skip(0) =~= hall);
    while k < total
        invariant
            tree@.name == config.name@,
            tree@.class_name == "DataModel"@,
            services_in(tree@, svcs, svcs.len() as int),
            svcs == config@.services,
            total == hall.len(),
            all_hs == hoisted_views(hall),
            k <= total,
            hoisted@ == hall.skip(k as int),
            tree@ == hoisted_placed(t2, all_hs, k as int),
        decreases total - k,
    {
        let (parent, node) = hoisted.remove(0);
        assert(hoisted@ =~= hall.skip(k + 1));
        assert(hall[k as int] == (parent, node));
        proof {
            lemma_placed_keeps(tree@, parent@, node@);
            lemma_placed_paths(tree@, parent@, node@);
        }
        place(&mut tree, parent.as_str(), node);
        k = k + 1;
    }
    let files = copy_strings(&scanner.files);
    let ghost v = tree@;
    tree.sort();
    crate::ir::reindex_root(&mut tree.root);
    assert(reindexed_root(sorted_tree(v)) == tree@);
    proof {
        lemma_services_sorted(v, svcs, svcs.len() as int);
        assert(all_hs == services_hoisted(ghss, chss, n) + w.6);
        assert(build_made(
            transform,
            config@,
            *root,
            mounts@,
            tree@,
            gots,
            ghss,
            conts,
            chss,
            w.0,
            w.1,
            w.2,
            w.3,
            w.4,
            w.5,
            ev,
            w.6,
        ));
    }
    let warned = scanner.warnings;
    Ok((tree, files, warned))
}

/// The node a folder makes on its own, as a model is built: sorted by
/// name, with ids from the folder down; an error naming the folder (by the
/// name it was read under, its path for a folder read on its own) where it
/// declares itself ignored.
pub fn build_folder<T: Transform>(root: &Folder, transform: &T, name: &str) -> (r: Result<(Node, Vec<String>), String>)
    ensures
        r matches Ok((n, _)) ==> exists|e: (NodeV, Option<Seq<char>>), hs: Seq<(Seq<char>, NodeV)>|
            #[trigger] folder_made(transform, *root, Seq::empty(), name@, Some(e), hs) && n@ == reindexed(
                sorted_tree(e.0),
                Seq::empty(),
            ),
        r matches Ok((n, _)) ==> (init_script_of(*root) matches Some(s) ==> n@.class_name == script_class(s)),
        r matches Ok((n, _)) ==> n@.name == declared_name(name@, init_decl(*root)),
        init_decl(*root).ignore ==> (r matches Err(m) && m@ == root.name@ + " has nothing to build"@),
        (folder_ok(*root) && !init_decl(*root).ignore) ==> r is Ok,
        r matches Ok((n, _)) ==> (init_script_of(*root) matches Some(sc) ==> exists|src: Seq<char>|
            transform.source_gives(
                child_spec(""@, candidate_name(init_at(*root, 0))),
                script_class(sc),
                raw_text(named(*root, candidate_name(init_at(*root, 0)))->0),
                Ok(src),
            ) && n@.properties == insert_all(seq![("Source"@, JsonV::Text(src))], init_decl(*root).properties)),
        r matches Ok((n, _)) ==> (init_script_of(*root) is None ==> n@.properties == insert_all(
            Seq::empty(),
            init_decl(*root).properties,
        )),
{
    let mounts: Vec<(String, Mount)> = Vec::new();
    let mut scanner = Scanner {
        transform,
        mounts: &mounts,
        hoisted: Vec::new(),
        files: Vec::new(),
        included: Vec::new(),
        excluded: Vec::new(),
        mounted: Vec::new(),
        warnings: Vec::new(),
    };
    proof {
        reveal_strlit("");
        assert(""@ =~= Seq::<char>::empty());
    }
    let found = scanner.folder(root, "", name)?;
    let ghost fv = entry_opt_view(found);
    let entry = match found {
        Some(e) => e,
        None => {
            let mut message = copy_str(root.name.as_str());
            push_str(&mut message, " has nothing to build");
            return Err(message);
        },
    };
    let ghost ev = (entry.0@, crate::patch::opt_view(entry.1));
    assert(fv == Some(ev));
    let (mut node, _) = entry;
    let ghost v = node@;
    node.sort();
    crate::ir::reindex(&mut node, "");
    proof {
        reveal_strlit("");
        assert(""@ =~= Seq::<char>::empty());
    }
    assert(reindexed(sorted_tree(v), Seq::empty()) == node@);
    proof {
        let hs = choose|hs: Seq<(Seq<char>, NodeV)>| #[trigger] folder_made(transform, *root, Seq::empty(), name@, fv, hs);
        assert(folder_made(transform, *root, Seq::empty(), name@, Some(ev), hs));
    }
    let warned = scanner.warnings;
    Ok((node, warned))
}

} // verus!
