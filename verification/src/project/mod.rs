pub mod classify;
pub mod meta;
pub mod scan;

use vstd::prelude::*;
use crate::ir::{node_views, Node, NodeV};
use crate::json::{JsonMap, JsonV};
use crate::patch::opt_view;
use crate::paths::views;

verus! {

/// One instance a transform makes of a file.
#[derive(Debug)]
pub struct Loaded {
    pub class_name: Option<String>,
    pub name: Option<String>,
    pub parent: Option<String>,
    pub properties: JsonMap,
    pub attributes: JsonMap,
    pub tags: Vec<String>,
    pub children: Vec<Node>,
    pub skip: bool,
}

/// A `Loaded` with its text as character sequences.
pub struct LoadedV {
    pub class_name: Option<Seq<char>>,
    pub name: Option<Seq<char>>,
    pub parent: Option<Seq<char>>,
    pub properties: Seq<(Seq<char>, JsonV)>,
    pub attributes: Seq<(Seq<char>, JsonV)>,
    pub tags: Seq<Seq<char>>,
    pub children: Seq<NodeV>,
    pub skip: bool,
}

impl View for Loaded {
    type V = LoadedV;

    open spec fn view(&self) -> LoadedV {
        LoadedV {
            class_name: opt_view(self.class_name),
            name: opt_view(self.name),
            parent: opt_view(self.parent),
            properties: self.properties@,
            attributes: self.attributes@,
            tags: views(self.tags@),
            children: node_views(self.children@),
            skip: self.skip,
        }
    }
}

impl Default for Loaded {
    fn default() -> (r: Loaded)
        ensures
            r.class_name is None,
            r.name is None,
            r.parent is None,
            r.properties@.len() == 0,
            r.attributes@.len() == 0,
            r.tags@.len() == 0,
            r.children@.len() == 0,
            !r.skip,
    {
        Loaded {
            class_name: None,
            name: None,
            parent: None,
            properties: JsonMap::new(),
            attributes: JsonMap::new(),
            tags: Vec::new(),
            children: Vec::new(),
            skip: false,
        }
    }
}

/// A transform's answer for a file, with its text as character sequences.
pub open spec fn file_outcome(r: Result<Option<Vec<Loaded>>, String>) -> Result<Option<Seq<LoadedV>>, Seq<char>> {
    match r {
        Ok(Some(ls)) => Ok(Some(ls@.map_values(|l: Loaded| l@))),
        Ok(None) => Ok(None),
        Err(e) => Err(e@),
    }
}

/// A transform's answer for a source, with its text as character sequences.
pub open spec fn source_outcome(r: Result<String, String>) -> Result<Seq<char>, Seq<char>> {
    match r {
        Ok(s) => Ok(s@),
        Err(e) => Err(e@),
    }
}

/// What turns files into instances and sources into the text Studio gets:
/// the hook scripts of a project, or nothing at all. Each method's answer
/// is one its implementation allows for the arguments it was handed, as
/// the matching relation says. Where an implementation gives no relation
/// of its own (hook scripts, whose answers depend on their state), any
/// answer is allowed and nothing more is stated.
pub trait Transform {
    /// Whether `r` is an answer `file` may give for these arguments.
    open spec fn file_gives(
        &self,
        relative: Seq<char>,
        extension: Seq<char>,
        raw: Seq<char>,
        r: Result<Option<Seq<LoadedV>>, Seq<char>>,
    ) -> bool {
        true
    }

    /// Whether `r` is an answer `source` may give for these arguments.
    open spec fn source_gives(
        &self,
        relative: Seq<char>,
        class_name: Seq<char>,
        source: Seq<char>,
        r: Result<Seq<char>, Seq<char>>,
    ) -> bool {
        true
    }

    /// Whether `r` is an answer `claims` may give for this extension.
    open spec fn claims_gives(&self, extension: Seq<char>, r: bool) -> bool {
        true
    }

    /// The instances made of a file with the given extension, or `None`
    /// to leave the file to the built-in rules.
    fn file(&self, relative: &str, extension: &str, raw: &str) -> (r: Result<Option<Vec<Loaded>>, String>)
        ensures
            self.file_gives(relative@, extension@, raw@, file_outcome(r)),
    ;

    /// The source a script of the given class is sent with.
    fn source(&self, relative: &str, class_name: &str, source: String) -> (r: Result<String, String>)
        ensures
            self.source_gives(relative@, class_name@, source@, source_outcome(r)),
    ;

    /// Whether files with this extension go through `file`.
    fn claims(&self, extension: &str) -> (r: bool)
        ensures
            self.claims_gives(extension@, r),
    ;
}

/// The transform that changes nothing.
pub struct Passthrough;

impl Transform for Passthrough {
    open spec fn file_gives(
        &self,
        relative: Seq<char>,
        extension: Seq<char>,
        raw: Seq<char>,
        r: Result<Option<Seq<LoadedV>>, Seq<char>>,
    ) -> bool {
        r == Ok::<Option<Seq<LoadedV>>, Seq<char>>(None)
    }

    open spec fn source_gives(
        &self,
        relative: Seq<char>,
        class_name: Seq<char>,
        source: Seq<char>,
        r: Result<Seq<char>, Seq<char>>,
    ) -> bool {
        r == Ok::<Seq<char>, Seq<char>>(source)
    }

    open spec fn claims_gives(&self, extension: Seq<char>, r: bool) -> bool {
        !r
    }

    fn file(&self, relative: &str, extension: &str, raw: &str) -> (r: Result<Option<Vec<Loaded>>, String>)
    {
        Ok(None)
    }

    fn source(&self, relative: &str, class_name: &str, source: String) -> (r: Result<String, String>)
    {
        Ok(source)
    }

    fn claims(&self, extension: &str) -> (r: bool)
    {
        false
    }
}

} // verus!
