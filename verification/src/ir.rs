//! The instance tree that a project compiles to.
use vstd::prelude::*;
use crate::json::{JsonMap, JsonV};
use crate::paths::{child, child_spec, views};
use crate::text::{compare_str, copy_str, same_str, str_lt};

verus! {

/// Who owns an instance: RoFlux creates and removes `Managed` ones, only
/// passes through `Passthrough` containers, and never touches `Reference`
/// ones, which exist only in Studio.
#[derive(Clone, Copy, Debug, PartialEq, Eq, Structural)]
pub enum Ownership {
    Managed,
    Passthrough,
    Reference,
}

/// One instance and everything below it.
#[derive(Debug)]
pub struct Node {
    pub id: String,
    pub name: String,
    pub class_name: String,
    pub ownership: Ownership,
    pub properties: JsonMap,
    pub attributes: JsonMap,
    pub tags: Vec<String>,
    pub children: Vec<Node>,
    pub file_paths: Vec<String>,
}

/// A `Node` with its text as character sequences.
#[verifier::ext_equal]
pub struct NodeV {
    pub id: Seq<char>,
    pub name: Seq<char>,
    pub class_name: Seq<char>,
    pub ownership: Ownership,
    pub properties: Seq<(Seq<char>, JsonV)>,
    pub attributes: Seq<(Seq<char>, JsonV)>,
    pub tags: Seq<Seq<char>>,
    pub children: Seq<NodeV>,
    pub file_paths: Seq<Seq<char>>,
}

/// A node with nothing in it.
pub open spec fn blank_node() -> NodeV {
    NodeV {
        id: Seq::empty(),
        name: Seq::empty(),
        class_name: Seq::empty(),
        ownership: Ownership::Managed,
        properties: Seq::empty(),
        attributes: Seq::empty(),
        tags: Seq::empty(),
        children: Seq::empty(),
        file_paths: Seq::empty(),
    }
}

/// The abstract value of a `Node`.
pub open spec fn node_view(n: Node) -> NodeV
    decreases n,
{
    NodeV {
        id: n.id@,
        name: n.name@,
        class_name: n.class_name@,
        ownership: n.ownership,
        properties: n.properties@,
        attributes: n.attributes@,
        tags: views(n.tags@),
        children: Seq::new(
            n.children@.len(),
            |i: int|
                if 0 <= i < n.children@.len() {
                    node_view(n.children@[i])
                } else {
                    blank_node()
                },
        ),
        file_paths: views(n.file_paths@),
    }
}

impl View for Node {
    type V = NodeV;

    open spec fn view(&self) -> NodeV {
        node_view(*self)
    }
}

/// The views of a sequence of nodes.
pub open spec fn node_views(s: Seq<Node>) -> Seq<NodeV> {
    s.map_values(|n: Node| n@)
}

/// The number of nodes in a tree, its root included.
pub open spec fn node_size(v: NodeV) -> nat
    decreases v,
{
    1 + forest_size(v.children)
}

/// The number of nodes in a sequence of trees.
pub open spec fn forest_size(s: Seq<NodeV>) -> nat
    decreases s,
{
    if s.len() == 0 {
        0
    } else {
        forest_size(s.drop_last()) + node_size(s.last())
    }
}

pub proof fn lemma_tree_smaller(s: Seq<NodeV>, i: int)
    requires
        0 <= i < s.len(),
    ensures
        node_size(s[i]) <= forest_size(s),
    decreases s.len(),
{
    if i < s.len() - 1 {
        lemma_tree_smaller(s.drop_last(), i);
    }
}

pub proof fn lemma_children_view(n: Node)
    ensures
        n@.children == node_views(n.children@),
{
    assert(n@.children =~= node_views(n.children@));
}

pub broadcast proof fn lemma_node_view_children(n: Node)
    ensures
        #[trigger] node_view(n).children == node_views(n.children@),
{
    assert(node_view(n).children =~= node_views(n.children@));
}

pub broadcast proof fn lemma_node_views_update(s: Seq<Node>, i: int, c: Node)
    requires
        0 <= i < s.len(),
    ensures
        #[trigger] node_views(s.update(i, c)) == node_views(s).update(i, c@),
{
    assert(node_views(s.update(i, c)) =~= node_views(s).update(i, c@));
}

/// A script class: `Script`, `LocalScript` or `ModuleScript`.
pub open spec fn is_script_class(c: Seq<char>) -> bool {
    c == "Script"@ || c == "LocalScript"@ || c == "ModuleScript"@
}

/// The number of scripts in a tree, its root included.
pub open spec fn script_count(v: NodeV) -> nat
    decreases v,
{
    (if is_script_class(v.class_name) {
        1nat
    } else {
        0nat
    }) + forest_scripts(v.children)
}

pub open spec fn forest_scripts(s: Seq<NodeV>) -> nat
    decreases s,
{
    if s.len() == 0 {
        0
    } else {
        forest_scripts(s.drop_last()) + script_count(s.last())
    }
}

/// The index of the first node in `s` named `name`.
pub open spec fn first_named(s: Seq<NodeV>, name: Seq<char>) -> Option<int>
    decreases s.len(),
{
    if s.len() == 0 {
        None
    } else if s[0].name == name {
        Some(0)
    } else {
        match first_named(s.drop_first(), name) {
            Some(i) => Some(i + 1),
            None => None,
        }
    }
}

pub proof fn lemma_first_named(s: Seq<NodeV>, name: Seq<char>)
    ensures
        first_named(s, name) matches Some(i) ==> 0 <= i < s.len() && s[i].name == name && forall|
            k: int,
        | 0 <= k < i ==> s[k].name != name,
        first_named(s, name) is None ==> forall|k: int| 0 <= k < s.len() ==> s[k].name != name,
    decreases s.len(),
{
    if s.len() > 0 {
        lemma_first_named(s.drop_first(), name);
        if s[0].name != name {
            assert forall|k: int| 1 <= k < s.len() implies s[k] == s.drop_first()[k - 1] by {}
        }
    }
}

/// A node with its id, name and class and nothing else, owned by `owner`.
pub open spec fn fresh(id: Seq<char>, name: Seq<char>, class_name: Seq<char>, owner: Ownership) -> NodeV {
    NodeV { id, name, class_name, ownership: owner, ..blank_node() }
}

impl Node {
    /// A managed node with nothing in it.
    pub fn new(id: String, name: String, class_name: String) -> (r: Node)
        ensures
            r@ == fresh(id@, name@, class_name@, Ownership::Managed),
    {
        let r = Node {
            id,
            name,
            class_name,
            ownership: Ownership::Managed,
            properties: JsonMap::new(),
            attributes: JsonMap::new(),
            tags: Vec::new(),
            children: Vec::new(),
            file_paths: Vec::new(),
        };
        assert(r@.tags =~= Seq::<Seq<char>>::empty());
        assert(r@.file_paths =~= Seq::<Seq<char>>::empty());
        assert(r@.children =~= Seq::<NodeV>::empty());
        r
    }

    /// A passthrough node with nothing in it.
    pub fn passthrough(id: String, name: String, class_name: String) -> (r: Node)
        ensures
            r@ == fresh(id@, name@, class_name@, Ownership::Passthrough),
    {
        let mut node = Node::new(id, name, class_name);
        node.ownership = Ownership::Passthrough;
        assert(node@.tags =~= Seq::<Seq<char>>::empty());
        assert(node@.file_paths =~= Seq::<Seq<char>>::empty());
        assert(node@.children =~= Seq::<NodeV>::empty());
        node
    }

    /// The first child named `name`.
    pub fn find_child(&self, name: &str) -> (r: Option<&Node>)
        ensures
            r matches Some(c) ==> first_named(self@.children, name@) matches Some(i) && c@
                == self@.children[i],
            r is None ==> first_named(self@.children, name@) is None,
    {
        match self.child_index(name) {
            Some(i) => {
                proof {
                    lemma_children_view(*self);
                    lemma_first_named(self@.children, name@);
                }
                Some(&self.children[i])
            },
            None => None,
        }
    }

    /// The index of the first child named `name`.
    pub fn child_index(&self, name: &str) -> (r: Option<usize>)
        ensures
            r matches Some(i) ==> first_named(self@.children, name@) == Some(i as int),
            r is None ==> first_named(self@.children, name@) is None,
    {
        proof {
            lemma_children_view(*self);
            lemma_first_named(self@.children, name@);
        }
        let mut i: usize = 0;
        while i < self.children.len()
            invariant
                i <= self.children@.len(),
                self@.children == node_views(self.children@),
                forall|k: int| 0 <= k < i ==> self@.children[k].name != name@,
            decreases self.children@.len() - i,
        {
            if same_str(self.children[i].name.as_str(), name) {
                proof {
                    lemma_first_named_at(self@.children, name@, i as int);
                }
                return Some(i);
            }
            i = i + 1;
        }
        proof {
            lemma_first_named_none(self@.children, name@);
        }
        None
    }

    /// The number of nodes below this one (saturating at `usize::MAX`).
    pub fn descendants(&self) -> (r: usize)
        ensures
            r == if forest_size(self@.children) <= usize::MAX {
                forest_size(self@.children)
            } else {
                usize::MAX as nat
            },
        decreases node_size(self@),
    {
        proof {
            lemma_children_view(*self);
        }
        let mut total: usize = 0;
        let mut i: usize = 0;
        while i < self.children.len()
            invariant
                i <= self.children@.len(),
                self@.children == node_views(self.children@),
                node_size(self@) == 1 + forest_size(self@.children),
                total == if forest_size(self@.children.take(i as int)) <= usize::MAX {
                    forest_size(self@.children.take(i as int))
                } else {
                    usize::MAX as nat
                },
            decreases self.children@.len() - i,
        {
            proof {
                lemma_tree_smaller(self@.children, i as int);
            }
            let below = self.children[i].descendants();
            let here = below.saturating_add(1);
            total = total.saturating_add(here);
            proof {
                let s = self@.children.take(i + 1);
                assert(s.drop_last() =~= self@.children.take(i as int));
                assert(s.last() == self@.children[i as int]);
            }
            i = i + 1;
        }
        assert(self@.children.take(self@.children.len() as int) =~= self@.children);
        total
    }

    /// The number of scripts in this tree, this node included (saturating
    /// at `usize::MAX`).
    pub fn scripts(&self) -> (r: usize)
        ensures
            r == if script_count(self@) <= usize::MAX {
                script_count(self@)
            } else {
                usize::MAX as nat
            },
        decreases node_size(self@),
    {
        proof {
            lemma_children_view(*self);
        }
        let own: usize = if same_str(self.class_name.as_str(), "Script") || same_str(
            self.class_name.as_str(),
            "LocalScript",
        ) || same_str(self.class_name.as_str(), "ModuleScript") {
            1
        } else {
            0
        };
        let mut total: usize = 0;
        let mut i: usize = 0;
        while i < self.children.len()
            invariant
                i <= self.children@.len(),
                self@.children == node_views(self.children@),
                node_size(self@) == 1 + forest_size(self@.children),
                total == if forest_scripts(self@.children.take(i as int)) <= usize::MAX {
                    forest_scripts(self@.children.take(i as int))
                } else {
                    usize::MAX as nat
                },
            decreases self.children@.len() - i,
        {
            proof {
                lemma_tree_smaller(self@.children, i as int);
            }
            let inner = self.children[i].scripts();
            total = total.saturating_add(inner);
            proof {
                let s = self@.children.take(i + 1);
                assert(s.drop_last() =~= self@.children.take(i as int));
                assert(s.last() == self@.children[i as int]);
            }
            i = i + 1;
        }
        assert(self@.children.take(self@.children.len() as int) =~= self@.children);
        own.saturating_add(total)
    }
}

proof fn lemma_first_named_at(s: Seq<NodeV>, name: Seq<char>, i: int)
    requires
        0 <= i < s.len(),
        s[i].name == name,
        forall|k: int| 0 <= k < i ==> s[k].name != name,
    ensures
        first_named(s, name) == Some(i),
    decreases s.len(),
{
    if i > 0 {
        lemma_first_named_at(s.drop_first(), name, i - 1);
    }
}

proof fn lemma_first_named_none(s: Seq<NodeV>, name: Seq<char>)
    requires
        forall|k: int| 0 <= k < s.len() ==> s[k].name != name,
    ensures
        first_named(s, name) is None,
    decreases s.len(),
{
    if s.len() > 0 {
        lemma_first_named_none(s.drop_first(), name);
    }
}


/// `x` put into `s` after every node whose name does not come after its own.
pub open spec fn insert_by_name(s: Seq<NodeV>, x: NodeV) -> Seq<NodeV>
    decreases s.len(),
{
    if s.len() == 0 {
        seq![x]
    } else if str_lt(x.name, s[0].name) {
        seq![x] + s
    } else {
        seq![s[0]] + insert_by_name(s.drop_first(), x)
    }
}

/// The nodes in ascending order of name, equal names kept in their order.
pub open spec fn sort_by_name(s: Seq<NodeV>) -> Seq<NodeV>
    decreases s.len(),
{
    if s.len() == 0 {
        s
    } else {
        insert_by_name(sort_by_name(s.drop_last()), s.last())
    }
}

/// The children of `v`, each with its own tree sorted.
pub open spec fn sorted_children(v: NodeV) -> Seq<NodeV>
    decreases v, 0nat,
{
    Seq::new(
        v.children.len(),
        |i: int|
            if 0 <= i < v.children.len() {
                sorted_tree(v.children[i])
            } else {
                blank_node()
            },
    )
}

/// The tree with the children of every node sorted by name.
pub open spec fn sorted_tree(v: NodeV) -> NodeV
    decreases v, 1nat,
{
    NodeV { children: sort_by_name(sorted_children(v)), ..v }
}

proof fn lemma_insert_by_name_at(s: Seq<NodeV>, x: NodeV, j: int)
    requires
        0 <= j <= s.len(),
        forall|k: int| 0 <= k < j ==> !str_lt(x.name, #[trigger] s[k].name),
        j < s.len() ==> str_lt(x.name, s[j].name),
    ensures
        insert_by_name(s, x) == s.insert(j, x),
    decreases s.len(),
{
    if s.len() == 0 {
        assert(s.insert(j, x) =~= seq![x]);
    } else if j == 0 {
        assert(seq![x] + s =~= s.insert(0, x));
    } else {
        assert(!str_lt(x.name, s[0].name));
        let t = s.drop_first();
        assert forall|k: int| 0 <= k < j - 1 implies !str_lt(x.name, #[trigger] t[k].name) by {
            assert(t[k] == s[k + 1]);
        }
        lemma_insert_by_name_at(t, x, j - 1);
        assert(seq![s[0]] + t.insert(j - 1, x) =~= s.insert(j, x));
    }
}

fn insert_sorted(out: &mut Vec<Node>, x: Node)
    ensures
        node_views(final(out)@) == insert_by_name(node_views(old(out)@), x@),
{
    let ghost s = node_views(out@);
    let mut j: usize = 0;
    while j < out.len() && compare_str(x.name.as_str(), out[j].name.as_str()) >= 0
        invariant
            j <= out@.len(),
            s == node_views(out@),
            forall|k: int| 0 <= k < j ==> !str_lt(x@.name, #[trigger] s[k].name),
        decreases out@.len() - j,
    {
        j = j + 1;
    }
    proof {
        lemma_insert_by_name_at(s, x@, j as int);
    }
    let ghost xv = x@;
    out.insert(j, x);
    assert(node_views(out@) =~= s.insert(j as int, xv));
}

impl Node {
    /// Sorts the children of every node in this tree by name, keeping
    /// children with the same name in their order.
    pub fn sort(&mut self)
        ensures
            final(self)@ == sorted_tree(old(self)@),
        decreases node_size(old(self)@),
    {
        proof {
            lemma_children_view(*self);
        }
        let ghost before = self@;
        let mut kids: Vec<Node> = Vec::new();
        std::mem::swap(&mut kids, &mut self.children);
        let ghost originals = kids@;
        assert(node_views(originals) == before.children);
        let ghost mapped = sorted_children(before);
        let n = kids.len();
        let mut out: Vec<Node> = Vec::new();
        let mut i: usize = 0;
        assert(mapped.take(0) =~= Seq::<NodeV>::empty());
        while kids.len() > 0
            invariant
                i + kids@.len() == originals.len(),
                n == originals.len(),
                before == old(self)@,
                kids@ == originals.skip(i as int),
                node_views(originals) == before.children,
                node_size(before) == 1 + forest_size(before.children),
                mapped.len() == before.children.len(),
                forall|k: int| 0 <= k < mapped.len() ==> #[trigger] mapped[k] == sorted_tree(before.children[k]),
                node_views(out@) == sort_by_name(mapped.take(i as int)),
            decreases kids@.len(),
        {
            let mut c = kids.remove(0);
            assert(c == originals[i as int]);
            proof {
                lemma_tree_smaller(before.children, i as int);
                assert(c@ == before.children[i as int]);
            }
            c.sort();
            insert_sorted(&mut out, c);
            proof {
                let t = mapped.take(i + 1);
                assert(t.drop_last() =~= mapped.take(i as int));
                assert(t.last() == mapped[i as int]);
                assert(kids@ =~= originals.skip(i + 1));
            }
            i = i + 1;
        }
        assert(mapped.take(mapped.len() as int) =~= mapped);
        let ghost other = *self;
        self.children = out;
        proof {
            assert(self@.children =~= node_views(self.children@));
            assert(self@.children == sorted_tree(before).children);
        }
    }
}

/// Sorted by name: no node comes before one whose name is smaller.
pub open spec fn by_name(s: Seq<NodeV>) -> bool {
    forall|i: int, j: int| 0 <= i < j < s.len() ==> !str_lt(#[trigger] s[j].name, #[trigger] s[i].name)
}

proof fn lemma_insert_keeps_order(s: Seq<NodeV>, x: NodeV)
    requires
        by_name(s),
    ensures
        by_name(insert_by_name(s, x)),
        insert_by_name(s, x).to_multiset() == s.to_multiset().insert(x),
    decreases s.len(),
{
    broadcast use vstd::multiset::group_multiset_axioms, vstd::seq_lib::group_to_multiset_ensures;

    let r = insert_by_name(s, x);
    if s.len() == 0 {
        assert(r =~= seq![x]);
        assert(seq![x] =~= Seq::<NodeV>::empty().push(x));
        assert(s =~= Seq::<NodeV>::empty());
    } else if str_lt(x.name, s[0].name) {
        assert forall|i: int, j: int| 0 <= i < j < r.len() implies !str_lt(
            #[trigger] r[j].name,
            #[trigger] r[i].name,
        ) by {
            if i == 0 {
                crate::text::lemma_str_lt_asymmetric(x.name, s[0].name);
                if j > 1 {
                    assert(!str_lt(s[j - 1].name, s[0].name));
                    if str_lt(s[j - 1].name, x.name) {
                        crate::text::lemma_str_lt_transitive(s[j - 1].name, x.name, s[0].name);
                    }
                }
            } else {
                assert(r[i] == s[i - 1] && r[j] == s[j - 1]);
            }
        }
        assert(r =~= seq![x] + s);
        vstd::seq_lib::lemma_multiset_commutative(seq![x], s);
        assert(seq![x] =~= Seq::<NodeV>::empty().push(x));
    } else {
        let t = s.drop_first();
        assert forall|i: int, j: int| 0 <= i < j < t.len() implies !str_lt(
            #[trigger] t[j].name,
            #[trigger] t[i].name,
        ) by {
            assert(t[i] == s[i + 1] && t[j] == s[j + 1]);
        }
        lemma_insert_keeps_order(t, x);
        let rt = insert_by_name(t, x);
        assert(r =~= seq![s[0]] + rt);
        assert forall|i: int, j: int| 0 <= i < j < r.len() implies !str_lt(
            #[trigger] r[j].name,
            #[trigger] r[i].name,
        ) by {
            if i == 0 {
                assert(r[j] == rt[j - 1]);
                assert(rt.to_multiset().count(rt[j - 1]) > 0);
                if rt[j - 1] == x {
                } else {
                    assert(t.to_multiset().count(rt[j - 1]) > 0);
                    let k = choose|k: int| 0 <= k < t.len() && t[k] == rt[j - 1];
                    assert(!str_lt(s[k + 1].name, s[0].name));
                }
            } else {
                assert(r[i] == rt[i - 1] && r[j] == rt[j - 1]);
            }
        }
        vstd::seq_lib::lemma_multiset_commutative(seq![s[0]], rt);
        vstd::seq_lib::lemma_multiset_commutative(seq![s[0]], t);
        assert(seq![s[0]] + t =~= s);
    }
}

/// Sorting children by name leaves them in ascending order of name and
/// neither loses nor adds a child.
pub proof fn law_sort_by_name(s: Seq<NodeV>)
    ensures
        by_name(sort_by_name(s)),
        sort_by_name(s).to_multiset() == s.to_multiset(),
    decreases s.len(),
{
    broadcast use vstd::multiset::group_multiset_axioms, vstd::seq_lib::group_to_multiset_ensures;

    if s.len() == 0 {
    } else {
        law_sort_by_name(s.drop_last());
        lemma_insert_keeps_order(sort_by_name(s.drop_last()), s.last());
        assert(s.drop_last().push(s.last()) =~= s);
    }
}


/// The whole tree of a place: a `DataModel` at the root.
#[derive(Debug)]
pub struct Tree {
    pub root: Node,
}

impl View for Tree {
    type V = NodeV;

    open spec fn view(&self) -> NodeV {
        self.root@
    }
}

/// The tree of a place named `name` before anything is put in it.
pub open spec fn new_tree(name: Seq<char>) -> NodeV {
    NodeV {
        file_paths: seq!["default.project.json"@],
        ..fresh(Seq::empty(), name, "DataModel"@, Ownership::Passthrough)
    }
}

/// `v` with a passthrough child named `name` added at the end when it has
/// none yet.
pub open spec fn with_child(v: NodeV, name: Seq<char>, id: Seq<char>, class_name: Seq<char>) -> NodeV {
    match first_named(v.children, name) {
        Some(_) => v,
        None => NodeV {
            children: v.children.push(fresh(id, name, class_name, Ownership::Passthrough)),
            ..v
        },
    }
}

/// The index of the child named `name` once `with_child` has run.
pub open spec fn child_at(v: NodeV, name: Seq<char>) -> int {
    match first_named(v.children, name) {
        Some(i) => i,
        None => v.children.len() as int,
    }
}

/// The node at the end of `path` below `v` once every missing step has
/// been made; `trail` is the id of `v`'s path and `depth` its depth.
pub open spec fn reached(v: NodeV, path: Seq<Seq<char>>, trail: Seq<char>, depth: nat) -> NodeV
    decreases path.len(),
{
    if path.len() == 0 {
        v
    } else {
        let name = path[0];
        let id = child_spec(trail, name);
        let w = with_child(v, name, id, crate::project::scan::container_spec(depth, name));
        reached(w.children[child_at(v, name)], path.drop_first(), id, depth + 1)
    }
}

/// `v` once every missing step of `path` has been made and the node at its
/// end replaced by `sub`.
pub open spec fn replaced(v: NodeV, path: Seq<Seq<char>>, trail: Seq<char>, depth: nat, sub: NodeV) -> NodeV
    decreases path.len(),
{
    if path.len() == 0 {
        sub
    } else {
        let name = path[0];
        let id = child_spec(trail, name);
        let w = with_child(v, name, id, crate::project::scan::container_spec(depth, name));
        let i = child_at(v, name);
        NodeV {
            children: w.children.update(i, replaced(w.children[i], path.drop_first(), id, depth + 1, sub)),
            ..w
        }
    }
}

proof fn lemma_with_child(v: NodeV, name: Seq<char>, id: Seq<char>, class_name: Seq<char>)
    ensures
        0 <= child_at(v, name) < with_child(v, name, id, class_name).children.len(),
        with_child(v, name, id, class_name).children[child_at(v, name)].name == name,
{
    lemma_first_named(v.children, name);
}

fn reserve_in<'a>(node: &'a mut Node, path: &[String], from: usize, trail: String) -> (r: &'a mut Node)
    requires
        from <= path@.len(),
    ensures
        r@ == reached(old(node)@, views(path@).skip(from as int), trail@, from as nat),
        final(node)@ == replaced(old(node)@, views(path@).skip(from as int), trail@, from as nat, final(r)@),
    decreases path@.len() - from,
{
    broadcast use lemma_node_view_children, lemma_node_views_update;

    let ghost rest = views(path@).skip(from as int);
    if from == path.len() {
        assert(rest.len() == 0);
        return node;
    }
    proof {
        lemma_children_view(*node);
    }
    let ghost before = node@;
    let part = &path[from];
    assert(rest[0] == part@);
    assert(rest.drop_first() =~= views(path@).skip(from + 1));
    let id = child(trail.as_str(), part.as_str());
    let index = match node.child_index(part.as_str()) {
        Some(i) => i,
        None => {
            let class_name = crate::project::scan::container(from, part.as_str());
            node.children.push(Node::passthrough(id.clone(), part.clone(), class_name));
            proof {
                lemma_children_view(*node);
                assert(node@.children =~= before.children.push(fresh(id@, part@, crate::project::scan::container_spec(from as nat, part@), Ownership::Passthrough)));
            }
            node.children.len() - 1
        },
    };
    let ghost w = node@;
    proof {
        lemma_with_child(before, part@, id@, crate::project::scan::container_spec(from as nat, part@));
        lemma_children_view(*node);
        assert(w == with_child(before, part@, id@, crate::project::scan::container_spec(from as nat, part@)));
        assert(index == child_at(before, part@));
    }
    let ghost wn = *node;
    let below = &mut node.children[index];
    reserve_in(below, path, from + 1, id)
}

proof fn lemma_update_child_view(n: Node, m: Node, i: int, c: Node)
    requires
        0 <= i < n.children@.len(),
        m.children@ == n.children@.update(i, c),
        m.id == n.id,
        m.name == n.name,
        m.class_name == n.class_name,
        m.ownership == n.ownership,
        m.properties == n.properties,
        m.attributes == n.attributes,
        m.tags == n.tags,
        m.file_paths == n.file_paths,
    ensures
        m@ == (NodeV { children: n@.children.update(i, c@), ..n@ }),
{
    assert(m@.children =~= n@.children.update(i, c@));
}

impl Tree {
    /// A tree for a place named `name`: a passthrough `DataModel` that
    /// stands for `default.project.json`.
    pub fn new(name: &str) -> (r: Tree)
        ensures
            r@ == new_tree(name@),
    {
        let mut root = Node::passthrough(String::new(), copy_str(name), String::from_str("DataModel"));
        root.file_paths.push(String::from_str("default.project.json"));
        proof {
            assert(root@.file_paths =~= seq!["default.project.json"@]);
        }
        Tree { root }
    }

    /// The node at `path`, made on the way with passthrough containers
    /// where a step is missing.
    pub fn reserve(&mut self, path: &[String]) -> (r: &mut Node)
        ensures
            r@ == reached(old(self)@, views(path@), Seq::empty(), 0),
            final(self)@ == replaced(old(self)@, views(path@), Seq::empty(), 0, final(r)@),
    {
        assert(views(path@).skip(0) =~= views(path@));
        reserve_in(&mut self.root, path, 0, String::new())
    }

    /// Sorts the children of every node by name.
    pub fn sort(&mut self)
        ensures
            final(self)@ == sorted_tree(old(self)@),
    {
        self.root.sort();
    }
}


/// The tree with every id set to the path of names that leads to the node,
/// `parent` being the id of the node above.
pub open spec fn reindexed(v: NodeV, parent: Seq<char>) -> NodeV
    decreases v,
{
    let id = child_spec(parent, v.name);
    NodeV {
        id,
        children: Seq::new(
            v.children.len(),
            |i: int|
                if 0 <= i < v.children.len() {
                    reindexed(v.children[i], id)
                } else {
                    blank_node()
                },
        ),
        ..v
    }
}

/// The tree with an empty id at the root and every other id set from the
/// names below it.
pub open spec fn reindexed_root(v: NodeV) -> NodeV {
    NodeV {
        id: Seq::empty(),
        children: Seq::new(
            v.children.len(),
            |i: int|
                if 0 <= i < v.children.len() {
                    reindexed(v.children[i], Seq::empty())
                } else {
                    blank_node()
                },
        ),
        ..v
    }
}

fn reindex_children(node: &mut Node, id: &String, ghost_id: Ghost<Seq<char>>)
    requires
        id@ == ghost_id@,
    ensures
        final(node)@ == (NodeV {
            children: Seq::new(
                old(node)@.children.len(),
                |i: int|
                    if 0 <= i < old(node)@.children.len() {
                        reindexed(old(node)@.children[i], ghost_id@)
                    } else {
                        blank_node()
                    },
            ),
            ..old(node)@
        }),
    decreases node_size(old(node)@), 0nat,
{
    broadcast use lemma_node_view_children, lemma_node_views_update;

    let ghost before = node@;
    let ghost kids = node.children@;
    let n = node.children.len();
    let mut i: usize = 0;
    while i < n
        invariant
            n == node.children@.len(),
            n == before.children.len(),
            i <= n,
            node_size(before) == 1 + forest_size(before.children),
            before == old(node)@,
            id@ == ghost_id@,
            node.id == old(node).id,
            node.name == old(node).name,
            node.class_name == old(node).class_name,
            node.ownership == old(node).ownership,
            node.properties == old(node).properties,
            node.attributes == old(node).attributes,
            node.tags == old(node).tags,
            node.file_paths == old(node).file_paths,
            forall|k: int| 0 <= k < i ==> #[trigger] node@.children[k] == reindexed(before.children[k], ghost_id@),
            forall|k: int| i <= k < n ==> #[trigger] node.children@[k] == kids[k],
            node_views(kids) == before.children,
        decreases n - i,
    {
        proof {
            lemma_tree_smaller(before.children, i as int);
            assert(node.children@[i as int]@ == before.children[i as int]);
        }
        let ghost pre = node.children@;
        let ghost prev_view = node@;
        reindex(&mut node.children[i], id.as_str());
        assert(node.children@ == pre.update(i as int, node.children@[i as int]));
        assert(node.children@[i as int]@ == reindexed(before.children[i as int], ghost_id@));
        assert(node@.children[i as int] == node.children@[i as int]@);
        assert forall|k: int| 0 <= k < i implies #[trigger] node@.children[k] == reindexed(before.children[k], ghost_id@) by {
            assert(node.children@[k] == pre[k]);
            assert(prev_view.children[k] == pre[k]@);
        }
        i = i + 1;
    }
    assert(node@.children =~= Seq::new(
        before.children.len(),
        |i: int|
            if 0 <= i < before.children.len() {
                reindexed(before.children[i], ghost_id@)
            } else {
                blank_node()
            },
    ));
}

/// Sets the id of `node` to its path below `parent`, and the ids of
/// everything below it likewise.
pub fn reindex(node: &mut Node, parent: &str)
    ensures
        final(node)@ == reindexed(old(node)@, parent@),
    decreases node_size(old(node)@), 1nat,
{
    let ghost before = node@;
    node.id = child(parent, node.name.as_str());
    let id = node.id.clone();
    assert(node@.children == before.children);
    reindex_children(node, &id, Ghost(id@));
    assert(node@.children =~= reindexed(before, parent@).children);
    assert(node@ =~= reindexed(before, parent@));
}

/// Gives the root an empty id and every node below it its path of names.
pub fn reindex_root(root: &mut Node)
    ensures
        final(root)@ == reindexed_root(old(root)@),
{
    root.id = String::new();
    let id = String::new();
    reindex_children(root, &id, Ghost(Seq::empty()));
}


/// Whether the path of names `q` leads down from `v`: each step a child
/// of that name.
pub open spec fn has_path(v: NodeV, q: Seq<Seq<char>>) -> bool
    decreases q.len(),
{
    if q.len() == 0 {
        true
    } else {
        exists|j: int|
            0 <= j < v.children.len() && (#[trigger] v.children[j]).name == q[0] && has_path(
                v.children[j],
                q.drop_first(),
            )
    }
}

/// Every path of names that leads down from `a` leads down from `b` too.
pub open spec fn keeps_paths(a: NodeV, b: NodeV) -> bool {
    forall|q: Seq<Seq<char>>| #[trigger] has_path(a, q) ==> has_path(b, q)
}

/// Two nodes with the same children have the same paths.
pub proof fn lemma_same_children_paths(a: NodeV, b: NodeV)
    requires
        a.children == b.children,
    ensures
        keeps_paths(a, b),
{
    assert forall|q: Seq<Seq<char>>| #[trigger] has_path(a, q) implies has_path(b, q) by {
        if q.len() > 0 {
            let j = choose|j: int|
                0 <= j < a.children.len() && (#[trigger] a.children[j]).name == q[0] && has_path(
                    a.children[j],
                    q.drop_first(),
                );
            assert(b.children[j] == a.children[j]);
        }
    }
}

/// Keeping paths is transitive.
pub proof fn lemma_keeps_paths_trans(a: NodeV, b: NodeV, c: NodeV)
    requires
        keeps_paths(a, b),
        keeps_paths(b, c),
    ensures
        keeps_paths(a, c),
{
}

/// Sorting moves no node off a path of names.
proof fn lemma_sorted_has_path(v: NodeV, q: Seq<Seq<char>>)
    requires
        has_path(v, q),
    ensures
        has_path(sorted_tree(v), q),
    decreases q.len(),
{
    broadcast use vstd::seq_lib::group_to_multiset_ensures;

    if q.len() > 0 {
        let j = choose|j: int|
            0 <= j < v.children.len() && (#[trigger] v.children[j]).name == q[0] && has_path(
                v.children[j],
                q.drop_first(),
            );
        lemma_sorted_has_path(v.children[j], q.drop_first());
        let s = sorted_children(v);
        assert(s[j] == sorted_tree(v.children[j]));
        law_sort_by_name(s);
        let t = sort_by_name(s);
        assert(s.contains(s[j]));
        assert(t.to_multiset().count(s[j]) > 0);
        assert(t.contains(s[j]));
        let k = choose|k: int| 0 <= k < t.len() && t[k] == s[j];
        assert(sorted_tree(v).children[k] == s[j]);
    }
}

/// Setting ids moves no node off a path of names.
proof fn lemma_reindexed_has_path(v: NodeV, parent: Seq<char>, q: Seq<Seq<char>>)
    requires
        has_path(v, q),
    ensures
        has_path(reindexed(v, parent), q),
    decreases q.len(),
{
    if q.len() > 0 {
        let j = choose|j: int|
            0 <= j < v.children.len() && (#[trigger] v.children[j]).name == q[0] && has_path(
                v.children[j],
                q.drop_first(),
            );
        let id = child_spec(parent, v.name);
        lemma_reindexed_has_path(v.children[j], id, q.drop_first());
        assert(reindexed(v, parent).children[j] == reindexed(v.children[j], id));
    }
}

/// Sorting a tree and then setting its ids from the root keeps every path
/// of names that led down from it.
pub proof fn law_sort_reindex_keeps_paths(v: NodeV, q: Seq<Seq<char>>)
    requires
        has_path(v, q),
    ensures
        has_path(reindexed_root(sorted_tree(v)), q),
{
    lemma_sorted_has_path(v, q);
    let s = sorted_tree(v);
    if q.len() > 0 {
        let j = choose|j: int|
            0 <= j < s.children.len() && (#[trigger] s.children[j]).name == q[0] && has_path(
                s.children[j],
                q.drop_first(),
            );
        lemma_reindexed_has_path(s.children[j], Seq::empty(), q.drop_first());
        assert(reindexed_root(s).children[j] == reindexed(s.children[j], Seq::empty()));
    }
}

/// Making the steps of `p` and putting `sub` at its end, where `sub` keeps
/// the name and the paths of the node it replaces, keeps every path from
/// `v` and leads `p` down to `sub`, and on along every path below `sub`.
pub proof fn lemma_replaced_keeps_paths(v: NodeV, p: Seq<Seq<char>>, trail: Seq<char>, depth: nat, sub: NodeV)
    requires
        sub.name == reached(v, p, trail, depth).name,
        keeps_paths(reached(v, p, trail, depth), sub),
    ensures
        keeps_paths(v, replaced(v, p, trail, depth, sub)),
        has_path(replaced(v, p, trail, depth, sub), p),
        replaced(v, p, trail, depth, sub).name == v.name,
        forall|q: Seq<Seq<char>>| #[trigger] has_path(sub, q) ==> has_path(replaced(v, p, trail, depth, sub), p + q),
    decreases p.len(),
{
    let r = replaced(v, p, trail, depth, sub);
    if p.len() == 0 {
        assert forall|q: Seq<Seq<char>>| #[trigger] has_path(sub, q) implies has_path(r, p + q) by {
            assert(p + q =~= q);
        }
    } else {
        let name = p[0];
        let id = child_spec(trail, name);
        let cls = crate::project::scan::container_spec(depth, name);
        let w = with_child(v, name, id, cls);
        let i = child_at(v, name);
        lemma_with_child(v, name, id, cls);
        lemma_first_named(v.children, name);
        let c = w.children[i];
        lemma_replaced_keeps_paths(c, p.drop_first(), id, depth + 1, sub);
        let rc = replaced(c, p.drop_first(), id, depth + 1, sub);
        assert(r.children == w.children.update(i, rc));
        assert(r.children[i] == rc);
        assert(has_path(r, p));
        assert forall|q: Seq<Seq<char>>| #[trigger] has_path(v, q) implies has_path(r, q) by {
            if q.len() > 0 {
                let j = choose|j: int|
                    0 <= j < v.children.len() && (#[trigger] v.children[j]).name == q[0] && has_path(
                        v.children[j],
                        q.drop_first(),
                    );
                if j == i {
                    assert(w == v);
                    assert(has_path(c, q.drop_first()));
                    assert(has_path(rc, q.drop_first()));
                    assert(r.children[j] == rc);
                } else {
                    assert(w.children[j] == v.children[j]);
                    assert(r.children[j] == v.children[j]);
                }
            }
        }
        assert forall|q: Seq<Seq<char>>| #[trigger] has_path(sub, q) implies has_path(r, p + q) by {
            let pq = p + q;
            assert(pq.drop_first() =~= p.drop_first() + q);
            assert(has_path(rc, p.drop_first() + q));
            assert(pq[0] == p[0]);
            assert(r.children[i].name == pq[0] && has_path(r.children[i], pq.drop_first()));
        }
    }
}

/// A copy of a tree.
pub fn node_copy(n: &Node) -> (r: Node)
    ensures
        r@ == n@,
    decreases node_size(n@),
{
    broadcast use lemma_node_view_children;

    let mut children: Vec<Node> = Vec::new();
    let mut i: usize = 0;
    while i < n.children.len()
        invariant
            i <= n.children@.len(),
            children@.len() == i,
            node_size(n@) == 1 + forest_size(n@.children),
            forall|k: int| 0 <= k < i ==> (#[trigger] children@[k])@ == n.children@[k]@,
        decreases n.children@.len() - i,
    {
        proof {
            lemma_tree_smaller(n@.children, i as int);
        }
        children.push(node_copy(&n.children[i]));
        i = i + 1;
    }
    let r = Node {
        id: n.id.clone(),
        name: n.name.clone(),
        class_name: n.class_name.clone(),
        ownership: n.ownership,
        properties: n.properties.clone(),
        attributes: n.attributes.clone(),
        tags: n.tags.clone(),
        children,
        file_paths: n.file_paths.clone(),
    };
    assert(r@.children =~= n@.children);
    assert(r@.tags =~= n@.tags);
    assert(r@.file_paths =~= n@.file_paths);
    r
}

impl Clone for Node {
    fn clone(&self) -> (r: Self)
        ensures
            r@ == self@,
    {
        node_copy(self)
    }
}

} // verus!
