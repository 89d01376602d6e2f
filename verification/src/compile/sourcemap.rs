//! The sourcemap luau-lsp reads: the tree's names, classes and files.
use vstd::prelude::*;
use crate::ir::{lemma_children_view, lemma_tree_smaller, node_size, forest_size, Node, NodeV, Tree};
use crate::paths::{copy_strings, views};

verus! {

/// One instance of the sourcemap.
#[derive(Debug)]
pub struct Entry {
    pub name: String,
    pub class_name: String,
    pub file_paths: Vec<String>,
    pub children: Vec<Entry>,
}

/// An `Entry` with its text as character sequences.
pub struct EntryV {
    pub name: Seq<char>,
    pub class_name: Seq<char>,
    pub file_paths: Seq<Seq<char>>,
    pub children: Seq<EntryV>,
}

/// The abstract value of an `Entry`.
pub open spec fn entry_view(e: Entry) -> EntryV
    decreases e,
{
    EntryV {
        name: e.name@,
        class_name: e.class_name@,
        file_paths: views(e.file_paths@),
        children: Seq::new(
            e.children@.len(),
            |i: int|
                if 0 <= i < e.children@.len() {
                    entry_view(e.children@[i])
                } else {
                    EntryV {
                        name: Seq::empty(),
                        class_name: Seq::empty(),
                        file_paths: Seq::empty(),
                        children: Seq::empty(),
                    }
                },
        ),
    }
}

impl View for Entry {
    type V = EntryV;

    open spec fn view(&self) -> EntryV {
        entry_view(*self)
    }
}

/// The sourcemap entry of a tree: its name, class and files, and the
/// entries of its children in order.
pub open spec fn mapped(v: NodeV) -> EntryV
    decreases v,
{
    EntryV {
        name: v.name,
        class_name: v.class_name,
        file_paths: v.file_paths,
        children: Seq::new(
            v.children.len(),
            |i: int|
                if 0 <= i < v.children.len() {
                    mapped(v.children[i])
                } else {
                    EntryV {
                        name: Seq::empty(),
                        class_name: Seq::empty(),
                        file_paths: Seq::empty(),
                        children: Seq::empty(),
                    }
                },
        ),
    }
}

/// The sourcemap entry of a tree.
fn convert(node: &Node) -> (r: Entry)
    ensures
        r@ == mapped(node@),
    decreases node_size(node@),
{
    proof {
        lemma_children_view(*node);
    }
    let mut children: Vec<Entry> = Vec::new();
    let mut i: usize = 0;
    while i < node.children.len()
        invariant
            i <= node.children@.len(),
            node@.children == crate::ir::node_views(node.children@),
            node_size(node@) == 1 + forest_size(node@.children),
            children@.len() == i,
            forall|k: int| 0 <= k < i ==> (#[trigger] children@[k])@ == mapped(node@.children[k]),
        decreases node.children@.len() - i,
    {
        proof {
            lemma_tree_smaller(node@.children, i as int);
        }
        children.push(convert(&node.children[i]));
        i = i + 1;
    }
    let r = Entry {
        name: node.name.clone(),
        class_name: node.class_name.clone(),
        file_paths: copy_strings(&node.file_paths),
        children,
    };
    assert(r@.children =~= mapped(node@).children);
    r
}

/// The sourcemap of a tree.
pub fn build(tree: &Tree) -> (r: Entry)
    ensures
        r@ == mapped(tree@),
{
    convert(&tree.root)
}

} // verus!
