//! Patches: what Studio has to do to go from one tree to the next.
use vstd::prelude::*;
use crate::ir::{
    first_named, lemma_first_named, lemma_node_view_children, lemma_tree_smaller, node_size,
    forest_size, Node, NodeV, Ownership, Tree,
};
use crate::json::{assoc_get, assoc_keys, json_eq, json_same, sorted_keys, JsonMap, JsonV};
use crate::paths::{child, child_spec, copy_strings, join_with, joined, strings_eq, views};
use crate::text::{decimal, decimal_of, push_str, str_lt};

verus! {

/// One step of a patch.
#[derive(Debug)]
pub enum Op {
    Add { parent: String, node: Node },
    Update {
        id: String,
        name: Option<String>,
        class_name: Option<String>,
        properties: JsonMap,
        attributes: JsonMap,
        cleared_attributes: Vec<String>,
        tags: Option<Vec<String>>,
    },
    Remove { id: String },
}

/// An `Op` with its text as character sequences.
pub enum OpV {
    Add { parent: Seq<char>, node: NodeV },
    Update {
        id: Seq<char>,
        name: Option<Seq<char>>,
        class_name: Option<Seq<char>>,
        properties: Seq<(Seq<char>, JsonV)>,
        attributes: Seq<(Seq<char>, JsonV)>,
        cleared_attributes: Seq<Seq<char>>,
        tags: Option<Seq<Seq<char>>>,
    },
    Remove { id: Seq<char> },
}

pub open spec fn opt_view(o: Option<String>) -> Option<Seq<char>> {
    match o {
        Some(s) => Some(s@),
        None => None,
    }
}

pub open spec fn opt_views(o: Option<Vec<String>>) -> Option<Seq<Seq<char>>> {
    match o {
        Some(v) => Some(views(v@)),
        None => None,
    }
}

impl View for Op {
    type V = OpV;

    open spec fn view(&self) -> OpV {
        match self {
            Op::Add { parent, node } => OpV::Add { parent: parent@, node: node@ },
            Op::Update { id, name, class_name, properties, attributes, cleared_attributes, tags } =>
                OpV::Update {
                id: id@,
                name: opt_view(*name),
                class_name: opt_view(*class_name),
                properties: properties@,
                attributes: attributes@,
                cleared_attributes: views(cleared_attributes@),
                tags: opt_views(*tags),
            },
            Op::Remove { id } => OpV::Remove { id: id@ },
        }
    }
}

/// The views of a sequence of steps.
pub open spec fn op_views(s: Seq<Op>) -> Seq<OpV> {
    s.map_values(|o: Op| o@)
}

/// A sequence of steps.
#[derive(Debug)]
pub struct Patch {
    pub ops: Vec<Op>,
}

impl View for Patch {
    type V = Seq<OpV>;

    open spec fn view(&self) -> Seq<OpV> {
        op_views(self.ops@)
    }
}

impl Default for Patch {
    fn default() -> (r: Patch)
        ensures
            r@ == Seq::<OpV>::empty(),
    {
        let r = Patch { ops: Vec::new() };
        assert(r@ =~= Seq::<OpV>::empty());
        r
    }
}

/// The number of steps of one kind.
pub open spec fn count_adds(s: Seq<OpV>) -> nat
    decreases s.len(),
{
    if s.len() == 0 {
        0
    } else {
        count_adds(s.drop_last()) + if s.last() is Add {
            1nat
        } else {
            0nat
        }
    }
}

pub open spec fn count_updates(s: Seq<OpV>) -> nat
    decreases s.len(),
{
    if s.len() == 0 {
        0
    } else {
        count_updates(s.drop_last()) + if s.last() is Update {
            1nat
        } else {
            0nat
        }
    }
}

pub open spec fn count_removes(s: Seq<OpV>) -> nat
    decreases s.len(),
{
    if s.len() == 0 {
        0
    } else {
        count_removes(s.drop_last()) + if s.last() is Remove {
            1nat
        } else {
            0nat
        }
    }
}

proof fn lemma_counts_bounded(s: Seq<OpV>)
    ensures
        count_adds(s) + count_updates(s) + count_removes(s) == s.len(),
    decreases s.len(),
{
    if s.len() > 0 {
        lemma_counts_bounded(s.drop_last());
    }
}

/// Every step is an add, an update or a remove.
pub proof fn law_counts_add_up(p: Seq<OpV>)
    ensures
        count_adds(p) + count_updates(p) + count_removes(p) == p.len(),
{
    lemma_counts_bounded(p);
}

/// How many of `ops` satisfy `kind` (0 add, 1 update, 2 remove).
fn count_kind(ops: &Vec<Op>, kind: u8) -> (r: usize)
    requires
        kind <= 2,
    ensures
        kind == 0 ==> r == count_adds(op_views(ops@)),
        kind == 1 ==> r == count_updates(op_views(ops@)),
        kind == 2 ==> r == count_removes(op_views(ops@)),
{
    let mut n: usize = 0;
    let mut i: usize = 0;
    while i < ops.len()
        invariant
            i <= ops@.len(),
            kind <= 2,
            kind == 0 ==> n == count_adds(op_views(ops@.take(i as int))),
            kind == 1 ==> n == count_updates(op_views(ops@.take(i as int))),
            kind == 2 ==> n == count_removes(op_views(ops@.take(i as int))),
            n <= i,
        decreases ops@.len() - i,
    {
        let hit = match &ops[i] {
            Op::Add { .. } => kind == 0,
            Op::Update { .. } => kind == 1,
            Op::Remove { .. } => kind == 2,
        };
        proof {
            let t = op_views(ops@.take(i + 1));
            assert(t.drop_last() =~= op_views(ops@.take(i as int)));
            assert(t.last() == ops@[i as int]@);
            lemma_counts_bounded(op_views(ops@.take(i as int)));
        }
        if hit {
            n = n + 1;
        }
        i = i + 1;
    }
    assert(ops@.take(ops@.len() as int) =~= ops@);
    n
}

/// `+added ~updated -removed`.
pub open spec fn summary_spec(p: Seq<OpV>) -> Seq<char> {
    seq!['+'] + decimal(count_adds(p)) + seq![' ', '~'] + decimal(count_updates(p)) + seq![' ', '-']
        + decimal(count_removes(p))
}

impl Patch {
    /// Whether there is nothing to do.
    pub fn is_empty(&self) -> (r: bool)
        ensures
            r == (self@.len() == 0),
    {
        self.ops.len() == 0
    }

    /// The number of nodes added.
    pub fn added(&self) -> (r: usize)
        ensures
            r == count_adds(self@),
    {
        count_kind(&self.ops, 0)
    }

    /// The number of nodes updated.
    pub fn updated(&self) -> (r: usize)
        ensures
            r == count_updates(self@),
    {
        count_kind(&self.ops, 1)
    }

    /// The number of nodes removed.
    pub fn removed(&self) -> (r: usize)
        ensures
            r == count_removes(self@),
    {
        count_kind(&self.ops, 2)
    }

    /// `+added ~updated -removed`.
    pub fn summary(&self) -> (r: String)
        ensures
            r@ == summary_spec(self@),
    {
        let mut out = String::from_str("+");
        proof {
            reveal_strlit("+");
            reveal_strlit(" ~");
            reveal_strlit(" -");
        }
        push_str(&mut out, decimal_of(self.added()).as_str());
        push_str(&mut out, " ~");
        push_str(&mut out, decimal_of(self.updated()).as_str());
        push_str(&mut out, " -");
        push_str(&mut out, decimal_of(self.removed()).as_str());
        out
    }
}

/// `n`, or `usize::MAX` where it does not fit.
pub open spec fn saturated(n: nat) -> nat {
    if n <= usize::MAX {
        n
    } else {
        usize::MAX as nat
    }
}

/// An attribute set by an update, as a field label.
pub open spec fn set_label(k: Seq<char>) -> Seq<char> {
    "@"@ + k
}

/// An attribute cleared by an update, as a field label.
pub open spec fn cleared_label(k: Seq<char>) -> Seq<char> {
    "-@"@ + k
}

/// The labels of the fields an update touches: its property keys, `class`,
/// `@key` per attribute set, `-@key` per attribute cleared, then `tags`.
pub open spec fn update_fields(
    properties: Seq<(Seq<char>, JsonV)>,
    class_name: Option<Seq<char>>,
    attributes: Seq<(Seq<char>, JsonV)>,
    cleared: Seq<Seq<char>>,
    tags: Option<Seq<Seq<char>>>,
) -> Seq<Seq<char>> {
    assoc_keys(properties) + (if class_name is Some {
        seq!["class"@]
    } else {
        Seq::empty()
    }) + assoc_keys(attributes).map_values(|k: Seq<char>| set_label(k)) + cleared.map_values(
        |k: Seq<char>| cleared_label(k),
    ) + (if tags is Some {
        seq!["tags"@]
    } else {
        Seq::empty()
    })
}

/// The one-line description of a step.
pub open spec fn op_line(op: OpV) -> Seq<char> {
    match op {
        OpV::Add { parent, node } => {
            let extra = saturated(forest_size(node.children));
            "+ "@ + child_spec(parent, node.name) + " ["@ + node.class_name + "]"@ + (if extra > 0 {
                " (+"@ + decimal(extra) + " inside)"@
            } else {
                Seq::empty()
            })
        },
        OpV::Update { id, class_name, properties, attributes, cleared_attributes, tags, .. } => "~ "@
            + id + " ("@ + joined(
            update_fields(properties, class_name, attributes, cleared_attributes, tags),
            ", "@,
        ) + ")"@,
        OpV::Remove { id } => "- "@ + id,
    }
}

/// The lines describing a patch: one per step up to `limit`, then a count
/// of the steps left out.
pub open spec fn patch_lines(ops: Seq<OpV>, limit: nat) -> Seq<Seq<char>> {
    if ops.len() <= limit {
        ops.map_values(|o: OpV| op_line(o))
    } else {
        ops.take(limit as int).map_values(|o: OpV| op_line(o)).push(
            "and "@ + decimal((ops.len() - limit) as nat) + " more"@,
        )
    }
}

/// The labels of the fields an update touches.
fn field_labels(
    properties: &JsonMap,
    class_name: &Option<String>,
    attributes: &JsonMap,
    cleared: &Vec<String>,
    tags: &Option<Vec<String>>,
) -> (r: Vec<String>)
    ensures
        views(r@) == update_fields(
            properties@,
            opt_view(*class_name),
            attributes@,
            views(cleared@),
            opt_views(*tags),
        ),
{
    let mut out = properties.keys();
    let ghost base = views(out@);
    if class_name.is_some() {
        out.push(String::from_str("class"));
    }
    let ghost with_class = views(out@);
    assert(with_class =~= base + (if opt_view(*class_name) is Some {
        seq!["class"@]
    } else {
        Seq::empty()
    }));
    let keys = attributes.keys();
    let mut i: usize = 0;
    while i < keys.len()
        invariant
            i <= keys@.len(),
            views(out@) == with_class + views(keys@).take(i as int).map_values(
                |k: Seq<char>| set_label(k),
            ),
        decreases keys@.len() - i,
    {
        let mut label = String::from_str("@");
        push_str(&mut label, keys[i].as_str());
        let ghost prev = views(out@);
        out.push(label);
        assert(views(keys@).take(i + 1) =~= views(keys@).take(i as int).push(keys@[i as int]@));
        assert(views(out@) =~= prev.push(set_label(keys@[i as int]@)));
        i = i + 1;
    }
    assert(views(keys@).take(keys@.len() as int) =~= views(keys@));
    assert(views(keys@) =~= assoc_keys(attributes@));
    let ghost with_attrs = views(out@);
    let mut j: usize = 0;
    while j < cleared.len()
        invariant
            j <= cleared@.len(),
            views(out@) == with_attrs + views(cleared@).take(j as int).map_values(
                |k: Seq<char>| cleared_label(k),
            ),
        decreases cleared@.len() - j,
    {
        let mut label = String::from_str("-@");
        push_str(&mut label, cleared[j].as_str());
        let ghost prev = views(out@);
        out.push(label);
        assert(views(cleared@).take(j + 1) =~= views(cleared@).take(j as int).push(
            cleared@[j as int]@,
        ));
        assert(views(out@) =~= prev.push(cleared_label(cleared@[j as int]@)));
        j = j + 1;
    }
    assert(views(cleared@).take(cleared@.len() as int) =~= views(cleared@));
    let ghost with_cleared = views(out@);
    if tags.is_some() {
        out.push(String::from_str("tags"));
    }
    assert(views(out@) =~= with_cleared + (if opt_views(*tags) is Some {
        seq!["tags"@]
    } else {
        Seq::empty()
    }));
    out
}

/// The one-line description of a step.
fn line_of(op: &Op) -> (r: String)
    ensures
        r@ == op_line(op@),
{
    match op {
        Op::Add { parent, node } => {
            let extra = node.descendants();
            let mut out = String::from_str("+ ");
            push_str(&mut out, child(parent.as_str(), node.name.as_str()).as_str());
            push_str(&mut out, " [");
            push_str(&mut out, node.class_name.as_str());
            push_str(&mut out, "]");
            if extra > 0 {
                push_str(&mut out, " (+");
                push_str(&mut out, decimal_of(extra).as_str());
                push_str(&mut out, " inside)");
            }
            out
        },
        Op::Update { id, class_name, properties, attributes, cleared_attributes, tags, .. } => {
            let fields = field_labels(properties, class_name, attributes, cleared_attributes, tags);
            let mut out = String::from_str("~ ");
            push_str(&mut out, id.as_str());
            push_str(&mut out, " (");
            push_str(&mut out, join_with(fields.as_slice(), ", ").as_str());
            push_str(&mut out, ")");
            out
        },
        Op::Remove { id } => {
            let mut out = String::from_str("- ");
            push_str(&mut out, id.as_str());
            out
        },
    }
}

impl Patch {
    /// One line per step, at most `limit` of them, then `and N more` where
    /// steps were left out.
    pub fn lines(&self, limit: usize) -> (r: Vec<String>)
        ensures
            views(r@) == patch_lines(self@, limit as nat),
    {
        let mut out: Vec<String> = Vec::new();
        let mut i: usize = 0;
        while i < self.ops.len()
            invariant
                i <= self.ops@.len(),
                i <= limit,
                views(out@) == op_views(self.ops@.take(i as int)).map_values(|o: OpV| op_line(o)),
            decreases self.ops@.len() - i,
        {
            if i >= limit {
                let mut tail = String::from_str("and ");
                push_str(&mut tail, decimal_of(self.ops.len() - limit).as_str());
                push_str(&mut tail, " more");
                let ghost prev = views(out@);
                out.push(tail);
                assert(op_views(self.ops@.take(i as int)) =~= self@.take(limit as int));
                assert(views(out@) =~= prev.push(views(out@).last()));
                return out;
            }
            let line = line_of(&self.ops[i]);
            let ghost prev = views(out@);
            out.push(line);
            assert(op_views(self.ops@.take(i + 1)) =~= op_views(self.ops@.take(i as int)).push(
                self.ops@[i as int]@,
            ));
            assert(views(out@) =~= prev.push(line@));
            i = i + 1;
        }
        assert(op_views(self.ops@.take(i as int)) =~= self@);
        out
    }
}

/// The tree without its `Reference` nodes.
pub open spec fn stripped(v: NodeV) -> NodeV
    decreases v,
{
    NodeV { children: unreferenced(v.children), ..v }
}

/// The nodes that are not references, each stripped, in order.
pub open spec fn unreferenced(s: Seq<NodeV>) -> Seq<NodeV>
    decreases s,
{
    if s.len() == 0 {
        Seq::empty()
    } else if s.last().ownership == Ownership::Reference {
        unreferenced(s.drop_last())
    } else {
        unreferenced(s.drop_last()).push(stripped(s.last()))
    }
}

/// A copy of `node` without the references anywhere below it.
fn strip(node: &Node) -> (r: Node)
    ensures
        r@ == stripped(node@),
    decreases node_size(node@),
{
    broadcast use lemma_node_view_children;

    let mut kids: Vec<Node> = Vec::new();
    let mut i: usize = 0;
    while i < node.children.len()
        invariant
            i <= node.children@.len(),
            node_size(node@) == 1 + forest_size(node@.children),
            crate::ir::node_views(kids@) == unreferenced(node@.children.take(i as int)),
        decreases node.children@.len() - i,
    {
        proof {
            let t = node@.children.take(i + 1);
            assert(t.drop_last() =~= node@.children.take(i as int));
            assert(t.last() == node@.children[i as int]);
            lemma_tree_smaller(node@.children, i as int);
        }
        if node.children[i].ownership != Ownership::Reference {
            let c = strip(&node.children[i]);
            let ghost prev = kids@;
            kids.push(c);
            assert(crate::ir::node_views(kids@) =~= crate::ir::node_views(prev).push(c@));
        }
        i = i + 1;
    }
    assert(node@.children.take(node@.children.len() as int) =~= node@.children);
    let r = Node {
        id: node.id.clone(),
        name: node.name.clone(),
        class_name: node.class_name.clone(),
        ownership: node.ownership,
        properties: node.properties.clone(),
        attributes: node.attributes.clone(),
        tags: copy_strings(&node.tags),
        children: kids,
        file_paths: copy_strings(&node.file_paths),
    };
    assert(r@ =~= stripped(node@));
    r
}

/// No node below the root of `v` is a reference.
pub open spec fn free_of_references(v: NodeV) -> bool
    decreases v,
{
    forall|i: int|
        0 <= i < v.children.len() ==> (#[trigger] v.children[i]).ownership != Ownership::Reference
            && free_of_references(v.children[i])
}

proof fn lemma_unreferenced_free(s: Seq<NodeV>, i: int)
    requires
        0 <= i < unreferenced(s).len(),
    ensures
        unreferenced(s)[i].ownership != Ownership::Reference,
        exists|j: int| 0 <= j < s.len() && unreferenced(s)[i] == stripped(#[trigger] s[j]),
    decreases s.len(),
{
    let r = unreferenced(s.drop_last());
    if s.last().ownership == Ownership::Reference {
        lemma_unreferenced_free(s.drop_last(), i);
        let j = choose|j: int| 0 <= j < s.drop_last().len() && r[i] == stripped(#[trigger] s.drop_last()[j]);
        assert(s[j] == s.drop_last()[j]);
    } else if i < r.len() {
        lemma_unreferenced_free(s.drop_last(), i);
        let j = choose|j: int| 0 <= j < s.drop_last().len() && r[i] == stripped(#[trigger] s.drop_last()[j]);
        assert(s[j] == s.drop_last()[j]);
    } else {
        assert(unreferenced(s)[i] == stripped(s[s.len() - 1]));
    }
}

/// What Studio is sent holds no reference anywhere: references exist only
/// in Studio and are never created, changed or removed from files.
pub proof fn law_stripped_free_of_references(v: NodeV)
    ensures
        free_of_references(stripped(v)),
    decreases v,
{
    let t = stripped(v);
    assert forall|i: int| 0 <= i < t.children.len() implies (#[trigger] t.children[i]).ownership
        != Ownership::Reference && free_of_references(t.children[i]) by {
        lemma_unreferenced_free(v.children, i);
        let j = choose|j: int| 0 <= j < v.children.len() && unreferenced(v.children)[i] == stripped(
            #[trigger] v.children[j],
        );
        assert(decreases_to!(v => v.children[j]));
        law_stripped_free_of_references(v.children[j]);
    }
}

/// The tree that Studio is sent: everything but the references.
pub fn syncable(tree: &Tree) -> (r: Tree)
    ensures
        r@ == stripped(tree@),
{
    Tree { root: strip(&tree.root) }
}

/// The entries of `after` whose value is not equal (see `json_same`) to
/// the one `before` has under the same key, in order.
pub open spec fn changed(before: Seq<(Seq<char>, JsonV)>, after: Seq<(Seq<char>, JsonV)>) -> Seq<(Seq<char>, JsonV)>
    decreases after.len(),
{
    if after.len() == 0 {
        Seq::empty()
    } else if match assoc_get(before, after.last().0) {
        Some(old) => json_same(old, after.last().1),
        None => false,
    } {
        changed(before, after.drop_last())
    } else {
        changed(before, after.drop_last()).push(after.last())
    }
}

/// The keys of `before` that `after` has no entry for, in order.
pub open spec fn cleared(before: Seq<(Seq<char>, JsonV)>, after: Seq<(Seq<char>, JsonV)>) -> Seq<Seq<char>>
    decreases before.len(),
{
    if before.len() == 0 {
        Seq::empty()
    } else if assoc_get(after, before.last().0) is None {
        cleared(before.drop_last(), after).push(before.last().0)
    } else {
        cleared(before.drop_last(), after)
    }
}

/// The update that takes `b` to `a`, when anything besides the children
/// differs.
pub open spec fn compare_ops(b: NodeV, a: NodeV) -> Seq<OpV> {
    let class_name = if b.class_name != a.class_name {
        Some(a.class_name)
    } else {
        None
    };
    let properties = changed(b.properties, a.properties);
    let attributes = changed(b.attributes, a.attributes);
    let cleared_attributes = cleared(b.attributes, a.attributes);
    let tags = if b.tags != a.tags {
        Some(a.tags)
    } else {
        None
    };
    if class_name is None && properties.len() == 0 && attributes.len() == 0
        && cleared_attributes.len() == 0 && tags is None {
        Seq::empty()
    } else {
        seq![
            OpV::Update {
                id: a.id,
                name: None,
                class_name,
                properties,
                attributes,
                cleared_attributes,
                tags,
            },
        ]
    }
}

/// The steps that take `b` to `a`: nothing for a reference, otherwise the
/// update of `a` itself, then the steps for its children in order, then the
/// removal of managed children of `b` that `a` no longer has.
pub open spec fn walk_ops(b: NodeV, a: NodeV) -> Seq<OpV>
    decreases a,
{
    if a.ownership == Ownership::Reference {
        Seq::empty()
    } else {
        compare_ops(b, a) + child_ops(b, a.id, a.children) + removed_ops(b.children, a)
    }
}

/// The steps for the children `cs` of a node whose id is `pid`: a walk
/// into the child of `b` with the same name, or an add of the child.
pub open spec fn child_ops(b: NodeV, pid: Seq<char>, cs: Seq<NodeV>) -> Seq<OpV>
    decreases cs,
{
    if cs.len() == 0 {
        Seq::empty()
    } else {
        let c = cs.last();
        child_ops(b, pid, cs.drop_last()) + if c.ownership == Ownership::Reference {
            Seq::empty()
        } else {
            match first_named(b.children, c.name) {
                Some(i) => walk_ops(b.children[i], c),
                None => seq![OpV::Add { parent: pid, node: stripped(c) }],
            }
        }
    }
}

/// The removals of the managed nodes of `bs` that `a` has no child for.
pub open spec fn removed_ops(bs: Seq<NodeV>, a: NodeV) -> Seq<OpV>
    decreases bs.len(),
{
    if bs.len() == 0 {
        Seq::empty()
    } else if bs.last().ownership == Ownership::Managed && first_named(a.children, bs.last().name) is None {
        removed_ops(bs.drop_last(), a).push(OpV::Remove { id: bs.last().id })
    } else {
        removed_ops(bs.drop_last(), a)
    }
}

fn changed_map(before: &JsonMap, after: &JsonMap) -> (r: JsonMap)
    ensures
        r@ == changed(before@, after@),
{
    after.keys_are_sorted();
    let ghost a = after@;
    let mut out = JsonMap::new();
    let mut i: usize = 0;
    while i < after.len()
        invariant
            i <= a.len(),
            a == after@,
            sorted_keys(a),
            out@ == changed(before@, a.take(i as int)),
            forall|j: int| 0 <= j < out@.len() ==> exists|k: int| 0 <= k < i && #[trigger] out@[j].0 == a[k].0,
        decreases a.len() - i,
    {
        let key = after.key_at(i);
        let value = after.value_at(i);
        let same = match before.get(key.as_str()) {
            Some(old) => json_eq(old, value),
            None => false,
        };
        proof {
            let t = a.take(i + 1);
            assert(t.drop_last() =~= a.take(i as int));
            assert(t.last() == a[i as int]);
        }
        if !same {
            proof {
                assert forall|j: int| 0 <= j < out@.len() implies str_lt(#[trigger] out@[j].0, key@) by {
                    let k = choose|k: int| 0 <= k < i && out@[j].0 == a[k].0;
                    assert(str_lt(a[k].0, a[i as int].0));
                }
            }
            let ghost prev = out@;
            out.push_last(key.clone(), value.clone());
            proof {
                assert forall|j: int| 0 <= j < out@.len() implies exists|k: int| 0 <= k < i + 1 && #[trigger] out@[j].0 == a[k].0 by {
                    if j < prev.len() {
                        let k = choose|k: int| 0 <= k < i && prev[j].0 == a[k].0;
                        assert(out@[j].0 == a[k].0);
                    } else {
                        assert(out@[j].0 == a[i as int].0);
                    }
                }
            }
        }
        i = i + 1;
    }
    assert(a.take(a.len() as int) =~= a);
    out
}

fn cleared_keys(before: &JsonMap, after: &JsonMap) -> (r: Vec<String>)
    ensures
        views(r@) == cleared(before@, after@),
{
    let ghost b = before@;
    let mut out: Vec<String> = Vec::new();
    let mut i: usize = 0;
    while i < before.len()
        invariant
            i <= b.len(),
            b == before@,
            views(out@) == cleared(b.take(i as int), after@),
        decreases b.len() - i,
    {
        let key = before.key_at(i);
        proof {
            let t = b.take(i + 1);
            assert(t.drop_last() =~= b.take(i as int));
            assert(t.last() == b[i as int]);
        }
        if !after.contains_key(key.as_str()) {
            let ghost prev = out@;
            out.push(key.clone());
            assert(views(out@) =~= views(prev).push(key@));
        }
        i = i + 1;
    }
    assert(b.take(b.len() as int) =~= b);
    out
}

fn compare(before: &Node, after: &Node, patch: &mut Patch)
    ensures
        final(patch)@ == old(patch)@ + compare_ops(before@, after@),
{
    let class_name = if !crate::text::same_str(before.class_name.as_str(), after.class_name.as_str()) {
        Some(after.class_name.clone())
    } else {
        None
    };
    let properties = changed_map(&before.properties, &after.properties);
    let attributes = changed_map(&before.attributes, &after.attributes);
    let cleared_attributes = cleared_keys(&before.attributes, &after.attributes);
    let tags = if !strings_eq(&before.tags, &after.tags) {
        Some(copy_strings(&after.tags))
    } else {
        None
    };
    if class_name.is_none() && properties.is_empty() && attributes.is_empty()
        && cleared_attributes.len() == 0 && tags.is_none() {
        assert(compare_ops(before@, after@).len() == 0);
        assert(old(patch)@ + compare_ops(before@, after@) =~= old(patch)@);
        return;
    }
    let op = Op::Update {
        id: after.id.clone(),
        name: None,
        class_name,
        properties,
        attributes,
        cleared_attributes,
        tags,
    };
    let ghost prev = patch@;
    let ghost ov = op@;
    patch.ops.push(op);
    assert(ov == compare_ops(before@, after@)[0]);
    assert(patch@ =~= prev + compare_ops(before@, after@));
}

fn push_op(patch: &mut Patch, op: Op)
    ensures
        final(patch)@ == old(patch)@.push(op@),
{
    let ghost prev = patch@;
    let ghost ov = op@;
    patch.ops.push(op);
    assert(patch@ =~= prev.push(ov));
}

fn walk(before: &Node, after: &Node, patch: &mut Patch)
    ensures
        final(patch)@ == old(patch)@ + walk_ops(before@, after@),
    decreases node_size(after@),
{
    broadcast use lemma_node_view_children;

    if after.ownership == Ownership::Reference {
        assert(old(patch)@ + walk_ops(before@, after@) =~= old(patch)@);
        return;
    }
    let ghost start = patch@;
    compare(before, after, patch);
    let ghost cs = after@.children;
    let mut i: usize = 0;
    assert(child_ops(before@, after@.id, cs.take(0)) =~= Seq::<OpV>::empty()) by {
        assert(cs.take(0).len() == 0);
    }
    while i < after.children.len()
        invariant
            i <= cs.len(),
            cs == after@.children,
            after@.ownership != Ownership::Reference,
            node_size(after@) == 1 + forest_size(cs),
            patch@ == start + compare_ops(before@, after@) + child_ops(before@, after@.id, cs.take(i as int)),
        decreases cs.len() - i,
    {
        let c = &after.children[i];
        proof {
            let t = cs.take(i + 1);
            assert(t.drop_last() =~= cs.take(i as int));
            assert(t.last() == cs[i as int]);
            assert(c@ == cs[i as int]);
            lemma_tree_smaller(cs, i as int);
        }
        let ghost mid = patch@;
        if c.ownership != Ownership::Reference {
            match before.find_child(c.name.as_str()) {
                Some(existing) => {
                    walk(existing, c, patch);
                },
                None => {
                    let op = Op::Add { parent: after.id.clone(), node: strip(c) };
                    push_op(patch, op);
                    assert(patch@ =~= mid + seq![OpV::Add { parent: after@.id, node: stripped(c@) }]);
                },
            }
        } else {
            assert(patch@ =~= mid + Seq::<OpV>::empty());
        }
        assert(patch@ =~= start + compare_ops(before@, after@) + child_ops(before@, after@.id, cs.take(i + 1)));
        i = i + 1;
    }
    assert(cs.take(cs.len() as int) =~= cs);
    let ghost bs = before@.children;
    let ghost mid2 = patch@;
    let mut j: usize = 0;
    assert(removed_ops(bs.take(0), after@) =~= Seq::<OpV>::empty()) by {
        assert(bs.take(0).len() == 0);
    }
    while j < before.children.len()
        invariant
            j <= bs.len(),
            bs == before@.children,
            patch@ == mid2 + removed_ops(bs.take(j as int), after@),
        decreases bs.len() - j,
    {
        let c = &before.children[j];
        proof {
            let t = bs.take(j + 1);
            assert(t.drop_last() =~= bs.take(j as int));
            assert(t.last() == bs[j as int]);
            assert(c@ == bs[j as int]);
        }
        let ghost mid = patch@;
        if c.ownership == Ownership::Managed && after.find_child(c.name.as_str()).is_none() {
            push_op(patch, Op::Remove { id: c.id.clone() });
        }
        assert(patch@ =~= mid2 + removed_ops(bs.take(j + 1), after@));
        j = j + 1;
    }
    assert(bs.take(bs.len() as int) =~= bs);
    assert(patch@ =~= start + walk_ops(before@, after@));
}

/// The steps that take Studio from `before` to `after`.
pub fn diff(before: &Tree, after: &Tree) -> (r: Patch)
    ensures
        r@ == walk_ops(before@, after@),
{
    let mut patch = Patch::default();
    walk(&before.root, &after.root, &mut patch);
    assert(patch@ =~= walk_ops(before@, after@));
    patch
}

/// No two of `s` share a name.
pub open spec fn names_distinct(s: Seq<NodeV>) -> bool {
    forall|i: int, j: int| 0 <= i < j < s.len() ==> #[trigger] s[i].name != #[trigger] s[j].name
}

/// Every map in the tree has its keys in ascending order, and no two
/// children of one node share a name.
pub open spec fn well_named(v: NodeV) -> bool
    decreases v,
{
    sorted_keys(v.properties) && sorted_keys(v.attributes) && names_distinct(v.children)
        && all_well_named(v.children)
}

/// Every tree of `s` is `well_named`.
pub open spec fn all_well_named(s: Seq<NodeV>) -> bool
    decreases s,
{
    if s.len() == 0 {
        true
    } else {
        all_well_named(s.drop_last()) && well_named(s.last())
    }
}

proof fn lemma_all_well_named(s: Seq<NodeV>, i: int)
    requires
        all_well_named(s),
        0 <= i < s.len(),
    ensures
        well_named(s[i]),
    decreases s.len(),
{
    if i < s.len() - 1 {
        lemma_all_well_named(s.drop_last(), i);
    }
}

proof fn lemma_changed_self(m: Seq<(Seq<char>, JsonV)>, n: int)
    requires
        sorted_keys(m),
        0 <= n <= m.len(),
    ensures
        changed(m, m.take(n)).len() == 0,
    decreases n,
{
    if n > 0 {
        crate::json::lemma_unique_key_index(m, m[n - 1].0, n - 1);
        crate::json::lemma_json_same_refl(m[n - 1].1);
        assert(m.take(n).drop_last() =~= m.take(n - 1));
        lemma_changed_self(m, n - 1);
    }
}

proof fn lemma_cleared_self(m: Seq<(Seq<char>, JsonV)>, n: int)
    requires
        sorted_keys(m),
        0 <= n <= m.len(),
    ensures
        cleared(m.take(n), m).len() == 0,
    decreases n,
{
    if n > 0 {
        crate::json::lemma_unique_key_index(m, m[n - 1].0, n - 1);
        assert(m.take(n).drop_last() =~= m.take(n - 1));
        lemma_cleared_self(m, n - 1);
    }
}

proof fn lemma_child_ops_self(b: NodeV, pid: Seq<char>, n: int)
    requires
        names_distinct(b.children),
        0 <= n <= b.children.len(),
        forall|k: int|
            0 <= k < b.children.len() ==> (#[trigger] walk_ops(b.children[k], b.children[k])).len()
                == 0,
    ensures
        child_ops(b, pid, b.children.take(n)).len() == 0,
    decreases n,
{
    if n > 0 {
        let cs = b.children.take(n);
        assert(cs.drop_last() =~= b.children.take(n - 1));
        lemma_child_ops_self(b, pid, n - 1);
        let c = cs.last();
        lemma_first_named(b.children, c.name);
        if let Some(i) = first_named(b.children, c.name) {
            if i != n - 1 {
                if i < n - 1 {
                    assert(b.children[i].name != b.children[n - 1].name);
                } else {
                    assert(b.children[n - 1].name != b.children[i].name);
                }
            }
        }
        assert(walk_ops(b.children[n - 1], b.children[n - 1]).len() == 0);
    }
}

proof fn lemma_removed_ops_self(v: NodeV, n: int)
    requires
        0 <= n <= v.children.len(),
    ensures
        removed_ops(v.children.take(n), v).len() == 0,
    decreases n,
{
    if n > 0 {
        let bs = v.children.take(n);
        assert(bs.drop_last() =~= v.children.take(n - 1));
        lemma_removed_ops_self(v, n - 1);
        lemma_first_named(v.children, bs.last().name);
        assert(v.children[n - 1].name == bs.last().name);
    }
}

/// Comparing a tree with itself yields nothing to do, as long as no two
/// siblings share a name (maps always keep their keys ascending).
pub proof fn law_diff_self(t: NodeV)
    requires
        well_named(t),
    ensures
        walk_ops(t, t) == Seq::<OpV>::empty(),
    decreases t,
{
    if t.ownership != Ownership::Reference {
        lemma_changed_self(t.properties, t.properties.len() as int);
        lemma_changed_self(t.attributes, t.attributes.len() as int);
        lemma_cleared_self(t.attributes, t.attributes.len() as int);
        assert(t.properties.take(t.properties.len() as int) =~= t.properties);
        assert(t.attributes.take(t.attributes.len() as int) =~= t.attributes);
        assert(compare_ops(t, t).len() == 0);
        assert forall|k: int| 0 <= k < t.children.len() implies (#[trigger] walk_ops(
            t.children[k],
            t.children[k],
        )).len() == 0 by {
            lemma_all_well_named(t.children, k);
            law_diff_self(t.children[k]);
        }
        lemma_child_ops_self(t, t.id, t.children.len() as int);
        lemma_removed_ops_self(t, t.children.len() as int);
        assert(t.children.take(t.children.len() as int) =~= t.children);
    }
    assert(walk_ops(t, t) =~= Seq::<OpV>::empty());
}


/// Whether a managed node with id `id` stands anywhere below `v`.
pub open spec fn managed_below(v: NodeV, id: Seq<char>) -> bool
    decreases v,
{
    managed_among(v.children, id)
}

/// Whether a managed node with id `id` is one of `s` or stands below one
/// of them.
pub open spec fn managed_among(s: Seq<NodeV>, id: Seq<char>) -> bool
    decreases s,
{
    if s.len() == 0 {
        false
    } else {
        managed_among(s.drop_last(), id) || (s.last().ownership == Ownership::Managed && s.last().id == id)
            || managed_below(s.last(), id)
    }
}

/// Whether every removal among `ops` names a managed node below `v`.
pub open spec fn removes_managed(ops: Seq<OpV>, v: NodeV) -> bool {
    forall|k: int| 0 <= k < ops.len() && (#[trigger] ops[k]) is Remove ==> managed_below(v, ops[k]->Remove_id)
}

proof fn lemma_managed_among_member(s: Seq<NodeV>, i: int, id: Seq<char>)
    requires
        0 <= i < s.len(),
        managed_below(s[i], id) || (s[i].ownership == Ownership::Managed && s[i].id == id),
    ensures
        managed_among(s, id),
    decreases s.len(),
{
    if i < s.len() - 1 {
        lemma_managed_among_member(s.drop_last(), i, id);
        assert(s.drop_last()[i] == s[i]);
    }
}

proof fn lemma_removes_concat(x: Seq<OpV>, y: Seq<OpV>, v: NodeV)
    requires
        removes_managed(x, v),
        removes_managed(y, v),
    ensures
        removes_managed(x + y, v),
{
    assert forall|k: int| 0 <= k < (x + y).len() && (#[trigger] (x + y)[k]) is Remove implies managed_below(
        v,
        (x + y)[k]->Remove_id,
    ) by {
        if k < x.len() {
            assert((x + y)[k] == x[k]);
        } else {
            assert((x + y)[k] == y[k - x.len()]);
        }
    }
}

proof fn lemma_removed_ops_managed(bs: Seq<NodeV>, a: NodeV, v: NodeV)
    requires
        v.children == bs,
    ensures
        removes_managed(removed_ops(bs, a), v),
    decreases bs.len(),
{
    let ops = removed_ops(bs, a);
    assert forall|k: int| 0 <= k < ops.len() && (#[trigger] ops[k]) is Remove implies managed_among(
        bs,
        ops[k]->Remove_id,
    ) by {
        lemma_removed_ops_among(bs, a, k);
    }
}

proof fn lemma_removed_ops_among(bs: Seq<NodeV>, a: NodeV, k: int)
    requires
        0 <= k < removed_ops(bs, a).len(),
    ensures
        removed_ops(bs, a)[k] is Remove,
        managed_among(bs, removed_ops(bs, a)[k]->Remove_id),
    decreases bs.len(),
{
    let d = bs.drop_last();
    if k < removed_ops(d, a).len() {
        lemma_removed_ops_among(d, a, k);
        assert(removed_ops(bs, a)[k] == removed_ops(d, a)[k]);
    } else {
        assert(removed_ops(bs, a)[k] == OpV::Remove { id: bs.last().id });
    }
}

proof fn lemma_compare_ops_no_remove(b: NodeV, a: NodeV)
    ensures
        forall|k: int| 0 <= k < compare_ops(b, a).len() ==> !(#[trigger] compare_ops(b, a)[k] is Remove),
{
}

proof fn lemma_walk_ops_managed(b: NodeV, a: NodeV)
    ensures
        removes_managed(walk_ops(b, a), b),
    decreases a, 1int,
{
    if a.ownership != Ownership::Reference {
        lemma_compare_ops_no_remove(b, a);
        lemma_child_ops_managed(b, a.id, a.children);
        lemma_removed_ops_managed(b.children, a, b);
        lemma_removes_concat(compare_ops(b, a), child_ops(b, a.id, a.children), b);
        lemma_removes_concat(
            compare_ops(b, a) + child_ops(b, a.id, a.children),
            removed_ops(b.children, a),
            b,
        );
    }
}

proof fn lemma_child_ops_managed(b: NodeV, pid: Seq<char>, cs: Seq<NodeV>)
    ensures
        removes_managed(child_ops(b, pid, cs), b),
    decreases cs, 0int,
{
    if cs.len() > 0 {
        let c = cs.last();
        lemma_child_ops_managed(b, pid, cs.drop_last());
        let tail = if c.ownership == Ownership::Reference {
            Seq::empty()
        } else {
            match first_named(b.children, c.name) {
                Some(i) => walk_ops(b.children[i], c),
                None => seq![OpV::Add { parent: pid, node: stripped(c) }],
            }
        };
        if c.ownership != Ownership::Reference {
            crate::ir::lemma_first_named(b.children, c.name);
            match first_named(b.children, c.name) {
                Some(i) => {
                    lemma_walk_ops_managed(b.children[i], c);
                    let w = walk_ops(b.children[i], c);
                    assert forall|k: int| 0 <= k < w.len() && (#[trigger] w[k]) is Remove implies managed_below(
                        b,
                        w[k]->Remove_id,
                    ) by {
                        lemma_managed_among_member(b.children, i, w[k]->Remove_id);
                    }
                },
                None => {},
            }
        }
        assert(removes_managed(tail, b));
        lemma_removes_concat(child_ops(b, pid, cs.drop_last()), tail, b);
    }
}

/// The steps that take `before` to `after` remove only managed nodes of
/// `before`: every removal names the id of a node below the root of
/// `before` that the tool made, never a container it only passes through
/// or a reference.
pub proof fn law_diff_removes_managed(before: NodeV, after: NodeV)
    ensures
        forall|k: int|
            0 <= k < walk_ops(before, after).len() && (#[trigger] walk_ops(before, after)[k]) is Remove
                ==> managed_below(before, walk_ops(before, after)[k]->Remove_id),
{
    lemma_walk_ops_managed(before, after);
}

} // verus!
