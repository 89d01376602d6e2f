//! Declarations: what a `.meta.json`, `init.meta.json`, `.inst.json` or a
//! service entry of the manifest says about an instance.
use vstd::prelude::*;
use crate::json::{
    entries_size, json_size, lemma_entry_smaller, sorted_insert,
    assoc_get, json_parsed, json_views, opt_json_view, parse_json, Json, JsonMap, JsonV,
};
use crate::patch::opt_view;
use crate::paths::views;
use crate::text::{chars_of, copy_str, push_str, same_str, strip_leading, trim, trim_chars, trim_leading};

verus! {

/// A declaration.
#[derive(Debug)]
pub struct Meta {
    pub class_name: Option<String>,
    pub parent: Option<String>,
    pub path: Option<String>,
    pub from_model: Option<String>,
    pub name: Option<String>,
    pub ignore: bool,
    pub properties: JsonMap,
    pub attributes: JsonMap,
    pub tags: Vec<String>,
    pub children: Vec<(String, Meta)>,
}

/// A declaration with its text as character sequences.
pub struct MetaV {
    pub class_name: Option<Seq<char>>,
    pub parent: Option<Seq<char>>,
    pub path: Option<Seq<char>>,
    pub from_model: Option<Seq<char>>,
    pub name: Option<Seq<char>>,
    pub ignore: bool,
    pub properties: Seq<(Seq<char>, JsonV)>,
    pub attributes: Seq<(Seq<char>, JsonV)>,
    pub tags: Seq<Seq<char>>,
    pub children: Seq<(Seq<char>, MetaV)>,
}

/// The declaration that says nothing.
pub open spec fn blank_meta() -> MetaV {
    MetaV {
        class_name: None,
        parent: None,
        path: None,
        from_model: None,
        name: None,
        ignore: false,
        properties: Seq::empty(),
        attributes: Seq::empty(),
        tags: Seq::empty(),
        children: Seq::empty(),
    }
}

/// The abstract value of a `Meta`.
pub open spec fn meta_view(m: Meta) -> MetaV
    decreases m,
{
    MetaV {
        class_name: opt_view(m.class_name),
        parent: opt_view(m.parent),
        path: opt_view(m.path),
        from_model: opt_view(m.from_model),
        name: opt_view(m.name),
        ignore: m.ignore,
        properties: m.properties@,
        attributes: m.attributes@,
        tags: views(m.tags@),
        children: Seq::new(
            m.children@.len(),
            |i: int|
                if 0 <= i < m.children@.len() {
                    (m.children@[i].0@, meta_view(m.children@[i].1))
                } else {
                    (Seq::empty(), blank_meta())
                },
        ),
    }
}

impl View for Meta {
    type V = MetaV;

    open spec fn view(&self) -> MetaV {
        meta_view(*self)
    }
}

impl Default for Meta {
    fn default() -> (r: Meta)
        ensures
            r@ == blank_meta(),
    {
        let r = Meta {
            class_name: None,
            parent: None,
            path: None,
            from_model: None,
            name: None,
            ignore: false,
            properties: JsonMap::new(),
            attributes: JsonMap::new(),
            tags: Vec::new(),
            children: Vec::new(),
        };
        assert(r@.tags =~= Seq::<Seq<char>>::empty());
        assert(r@.children =~= Seq::<(Seq<char>, MetaV)>::empty());
        r
    }
}

/// The text of a string value.
pub open spec fn text_of(v: JsonV) -> Option<Seq<char>> {
    match v {
        JsonV::Text(s) => Some(s),
        _ => None,
    }
}

/// The string items of an array, in order; the others left out.
pub open spec fn texts(items: Seq<JsonV>) -> Seq<Seq<char>>
    decreases items.len(),
{
    if items.len() == 0 {
        Seq::empty()
    } else {
        match items.last() {
            JsonV::Text(s) => texts(items.drop_last()).push(s),
            _ => texts(items.drop_last()),
        }
    }
}

/// `m` with every entry of `es` inserted in turn.
pub open spec fn insert_all(m: Seq<(Seq<char>, JsonV)>, es: Seq<(Seq<char>, JsonV)>) -> Seq<
    (Seq<char>, JsonV),
>
    decreases es.len(),
{
    if es.len() == 0 {
        m
    } else {
        sorted_insert(insert_all(m, es.drop_last()), es.last().0, es.last().1)
    }
}

/// An object that holds a `$Type` entry: a typed value, not a declaration.
pub open spec fn typed_spec(v: JsonV) -> bool {
    v is Object && assoc_get(v->Object_0, "$Type"@) is Some
}

/// A non-typed object that names a class, a path, a model, properties or
/// children, or that holds such an object at any depth.
pub open spec fn is_declaration_spec(v: JsonV) -> bool
    decreases json_size(v), 0int,
{
    match v {
        JsonV::Object(es) => assoc_get(es, "$Type"@) is None && (assoc_get(es, "$ClassName"@) is Some
            || assoc_get(es, "$Path"@) is Some || assoc_get(es, "$FromModel"@) is Some || assoc_get(
            es,
            "$Properties"@,
        ) is Some || assoc_get(es, "$Children"@) is Some || any_declaration(es, es.len() as int)),
        _ => false,
    }
}

/// Whether one of the first `n` values of `es` is a declaration.
pub open spec fn any_declaration(es: Seq<(Seq<char>, JsonV)>, n: int) -> bool
    decreases entries_size(es), n,
{
    if n <= 0 || n > es.len() {
        false
    } else {
        proof {
            lemma_entry_smaller(es, n - 1);
        }
        any_declaration(es, n - 1) || is_declaration_spec(es[n - 1].1)
    }
}

/// What a value declares: nothing unless it is an object, whose entries
/// are read in order.
pub open spec fn parse_spec(v: JsonV) -> MetaV
    decreases json_size(v), 0int,
{
    match v {
        JsonV::Object(es) => parse_entries(es, es.len() as int),
        _ => blank_meta(),
    }
}

/// The named declarations of the first `n` entries of an object.
pub open spec fn parsed_children(cs: Seq<(Seq<char>, JsonV)>, n: int) -> Seq<(Seq<char>, MetaV)>
    decreases entries_size(cs), n,
{
    if n <= 0 || n > cs.len() {
        Seq::empty()
    } else {
        proof {
            lemma_entry_smaller(cs, n - 1);
        }
        parsed_children(cs, n - 1).push((cs[n - 1].0, parse_spec(cs[n - 1].1)))
    }
}

/// The declaration read from the first `n` entries of an object.
pub open spec fn parse_entries(es: Seq<(Seq<char>, JsonV)>, n: int) -> MetaV
    decreases entries_size(es), n,
{
    if n <= 0 || n > es.len() {
        blank_meta()
    } else {
        proof {
            lemma_entry_smaller(es, n - 1);
        }
        let m = parse_entries(es, n - 1);
        let k = es[n - 1].0;
        let e = es[n - 1].1;
        if k == "$ClassName"@ {
            MetaV { class_name: text_of(e), ..m }
        } else if k == "$Parent"@ {
            MetaV { parent: text_of(e), ..m }
        } else if k == "$Path"@ {
            MetaV { path: text_of(e), ..m }
        } else if k == "$FromModel"@ {
            MetaV { from_model: text_of(e), ..m }
        } else if k == "$Name"@ {
            MetaV { name: text_of(e), ..m }
        } else if k == "$Ignore"@ {
            MetaV {
                ignore: match e {
                    JsonV::Bool(b) => b,
                    _ => false,
                },
                ..m
            }
        } else if k == "$ProjectID"@ || k == "$Default"@ {
            m
        } else if k == "$Properties"@ {
            match e {
                JsonV::Object(fs) => MetaV { properties: insert_all(m.properties, fs), ..m },
                _ => m,
            }
        } else if k == "$Attributes"@ {
            match e {
                JsonV::Object(fs) => MetaV { attributes: insert_all(m.attributes, fs), ..m },
                _ => m,
            }
        } else if k == "$Tags"@ {
            match e {
                JsonV::Array(items) => MetaV { tags: m.tags + texts(items), ..m },
                _ => m,
            }
        } else if k == "$Children"@ {
            match e {
                JsonV::Object(cs) => MetaV {
                    children: m.children + parsed_children(cs, cs.len() as int),
                    ..m
                },
                _ => m,
            }
        } else if k.len() > 0 && k[0] == '$' {
            if is_declaration_spec(e) {
                MetaV { children: m.children.push((trim_leading(k, '$'), parse_spec(e))), ..m }
            } else {
                m
            }
        } else if e is Object && !typed_spec(e) {
            MetaV { children: m.children.push((k, parse_spec(e))), ..m }
        } else {
            MetaV { properties: sorted_insert(m.properties, k, e), ..m }
        }
    }
}

/// One of the directives a declaration reads.
pub open spec fn directive(k: Seq<char>) -> bool {
    k == "$ClassName"@ || k == "$Parent"@ || k == "$Path"@ || k == "$FromModel"@ || k == "$Name"@
        || k == "$Ignore"@ || k == "$ProjectID"@ || k == "$Default"@ || k == "$Properties"@
        || k == "$Attributes"@ || k == "$Tags"@ || k == "$Children"@
}

/// Whether a key is written with a leading `$`.
pub open spec fn dollar(k: Seq<char>) -> bool {
    k.len() > 0 && k[0] == '$'
}

proof fn lemma_directive_dollar(k: Seq<char>)
    ensures
        !dollar(k) ==> !directive(k) && k != "$Properties"@,
{
    reveal_strlit("$ClassName");
    reveal_strlit("$Parent");
    reveal_strlit("$Path");
    reveal_strlit("$FromModel");
    reveal_strlit("$Name");
    reveal_strlit("$Ignore");
    reveal_strlit("$ProjectID");
    reveal_strlit("$Default");
    reveal_strlit("$Properties");
    reveal_strlit("$Attributes");
    reveal_strlit("$Tags");
    reveal_strlit("$Children");
}

proof fn lemma_parse_properties_sorted(es: Seq<(Seq<char>, JsonV)>, n: int)
    requires
        0 <= n <= es.len(),
        forall|a: int| 0 <= a < es.len() ==> (#[trigger] es[a]).0 != "$Properties"@,
    ensures
        crate::json::sorted_keys(parse_entries(es, n).properties),
    decreases n,
{
    if n > 0 {
        lemma_parse_properties_sorted(es, n - 1);
        let m = parse_entries(es, n - 1);
        assert(es[n - 1].0 != "$Properties"@);
        crate::json::lemma_sorted_insert_sorted(m.properties, es[n - 1].0, es[n - 1].1);
    }
}

proof fn lemma_parse_children_grow(es: Seq<(Seq<char>, JsonV)>, n: int)
    requires
        0 < n <= es.len(),
    ensures
        parse_entries(es, n - 1).children.len() <= parse_entries(es, n).children.len(),
        forall|i: int|
            0 <= i < parse_entries(es, n - 1).children.len() ==> #[trigger] parse_entries(es, n).children[i]
                == parse_entries(es, n - 1).children[i],
{
}

proof fn lemma_parse_keys(es: Seq<(Seq<char>, JsonV)>, n: int, j: int)
    requires
        0 <= j < n <= es.len(),
        forall|a: int, b: int| 0 <= a < b < es.len() ==> (#[trigger] es[a]).0 != (#[trigger] es[b]).0,
        forall|a: int| 0 <= a < es.len() ==> (#[trigger] es[a]).0 != "$Properties"@,
    ensures
        (!dollar(es[j].0) && es[j].1 is Object && !typed_spec(es[j].1)) ==> parse_entries(es, n).children.contains(
            (es[j].0, parse_spec(es[j].1)),
        ),
        (!dollar(es[j].0) && !(es[j].1 is Object && !typed_spec(es[j].1))) ==> assoc_get(
            parse_entries(es, n).properties,
            es[j].0,
        ) == Some(es[j].1),
        (dollar(es[j].0) && !directive(es[j].0) && is_declaration_spec(es[j].1)) ==> parse_entries(
            es,
            n,
        ).children.contains((trim_leading(es[j].0, '$'), parse_spec(es[j].1))),
    decreases n,
{
    let k = es[n - 1].0;
    let v = es[n - 1].1;
    lemma_directive_dollar(k);
    lemma_parse_properties_sorted(es, n - 1);
    lemma_parse_children_grow(es, n);
    let m = parse_entries(es, n - 1);
    let r = parse_entries(es, n);
    assert(k != "$Properties"@);
    if j == n - 1 {
        crate::json::law_insert_then_get(m.properties, k, v, k);
        if !dollar(k) && v is Object && !typed_spec(v) {
            assert(r.children[m.children.len() as int] == (k, parse_spec(v)));
        }
        if dollar(k) && !directive(k) && is_declaration_spec(v) {
            assert(r.children[m.children.len() as int] == (trim_leading(k, '$'), parse_spec(v)));
        }
    } else {
        lemma_parse_keys(es, n - 1, j);
        assert(es[j].0 != k);
        crate::json::law_insert_then_get(m.properties, k, v, es[j].0);
        if !dollar(es[j].0) && es[j].1 is Object && !typed_spec(es[j].1) {
            let i = choose|i: int| 0 <= i < m.children.len() && m.children[i] == (es[j].0, parse_spec(es[j].1));
            assert(r.children[i] == m.children[i]);
        }
        if dollar(es[j].0) && !directive(es[j].0) && is_declaration_spec(es[j].1) {
            let i = choose|i: int|
                0 <= i < m.children.len() && m.children[i] == (trim_leading(es[j].0, '$'), parse_spec(es[j].1));
            assert(r.children[i] == m.children[i]);
        }
    }
}

proof fn lemma_insert_all_sorted(m: Seq<(Seq<char>, JsonV)>, fs: Seq<(Seq<char>, JsonV)>)
    requires
        crate::json::sorted_keys(m),
    ensures
        crate::json::sorted_keys(insert_all(m, fs)),
    decreases fs.len(),
{
    if fs.len() > 0 {
        lemma_insert_all_sorted(m, fs.drop_last());
        crate::json::lemma_sorted_insert_sorted(insert_all(m, fs.drop_last()), fs.last().0, fs.last().1);
    }
}

proof fn lemma_insert_all_get(m: Seq<(Seq<char>, JsonV)>, fs: Seq<(Seq<char>, JsonV)>, i: int)
    requires
        crate::json::sorted_keys(m),
        0 <= i < fs.len(),
        forall|a: int, b: int| 0 <= a < b < fs.len() ==> (#[trigger] fs[a]).0 != (#[trigger] fs[b]).0,
    ensures
        assoc_get(insert_all(m, fs), fs[i].0) == Some(fs[i].1),
    decreases fs.len(),
{
    let n = fs.len() - 1;
    lemma_insert_all_sorted(m, fs.drop_last());
    let prev = insert_all(m, fs.drop_last());
    if i == n {
        crate::json::law_insert_then_get(prev, fs[n].0, fs[n].1, fs[n].0);
    } else {
        let d = fs.drop_last();
        assert forall|a: int, b: int| 0 <= a < b < d.len() implies (#[trigger] d[a]).0 != (#[trigger] d[b]).0 by {
            assert(d[a] == fs[a] && d[b] == fs[b]);
        }
        lemma_insert_all_get(m, d, i);
        assert(d[i] == fs[i]);
        assert(fs[i].0 != fs[n].0);
        crate::json::law_insert_then_get(prev, fs[n].0, fs[n].1, fs[i].0);
    }
}

proof fn lemma_parse_attributes_sorted(es: Seq<(Seq<char>, JsonV)>, n: int)
    requires
        0 <= n <= es.len(),
    ensures
        crate::json::sorted_keys(parse_entries(es, n).attributes),
    decreases n,
{
    if n > 0 {
        lemma_parse_attributes_sorted(es, n - 1);
        let m = parse_entries(es, n - 1);
        if let JsonV::Object(fs) = es[n - 1].1 {
            lemma_insert_all_sorted(m.attributes, fs);
        }
    }
}

proof fn lemma_parse_attributes(es: Seq<(Seq<char>, JsonV)>, n: int, j: int, i: int)
    requires
        0 <= j < n <= es.len(),
        forall|a: int, b: int| 0 <= a < b < es.len() ==> (#[trigger] es[a]).0 != (#[trigger] es[b]).0,
        es[j].0 == "$Attributes"@,
        es[j].1 is Object,
        0 <= i < es[j].1->Object_0.len(),
        forall|a: int, b: int|
            0 <= a < b < es[j].1->Object_0.len() ==> (#[trigger] es[j].1->Object_0[a]).0
                != (#[trigger] es[j].1->Object_0[b]).0,
    ensures
        assoc_get(parse_entries(es, n).attributes, es[j].1->Object_0[i].0) == Some(es[j].1->Object_0[i].1),
    decreases n,
{
    reveal_strlit("$ClassName");
    reveal_strlit("$Parent");
    reveal_strlit("$Path");
    reveal_strlit("$FromModel");
    reveal_strlit("$Name");
    reveal_strlit("$Ignore");
    reveal_strlit("$ProjectID");
    reveal_strlit("$Default");
    reveal_strlit("$Properties");
    reveal_strlit("$Attributes");
    reveal_strlit("$Tags");
    reveal_strlit("$Children");
    let fs = es[j].1->Object_0;
    let m = parse_entries(es, n - 1);
    if n - 1 == j {
        lemma_parse_attributes_sorted(es, n - 1);
        assert("$Attributes"@ != "$ClassName"@ && "$Attributes"@ != "$Parent"@ && "$Attributes"@ != "$Path"@
            && "$Attributes"@ != "$FromModel"@ && "$Attributes"@ != "$Name"@ && "$Attributes"@ != "$Ignore"@
            && "$Attributes"@ != "$ProjectID"@ && "$Attributes"@ != "$Default"@ && "$Attributes"@
            != "$Properties"@) by {
            assert("$Attributes"@[1] == 'A');
        }
        assert(parse_entries(es, n).attributes == insert_all(m.attributes, fs));
        lemma_insert_all_get(m.attributes, fs, i);
    } else {
        lemma_parse_attributes(es, n - 1, j, i);
        assert(es[n - 1].0 != es[j].0);
        assert(parse_entries(es, n).attributes == m.attributes);
    }
}

/// Reading an object as a declaration, every entry of the object under its
/// `$Attributes` key becomes an attribute holding that value.
pub proof fn law_parse_attributes(es: Seq<(Seq<char>, JsonV)>, j: int, i: int)
    requires
        0 <= j < es.len(),
        forall|a: int, b: int| 0 <= a < b < es.len() ==> (#[trigger] es[a]).0 != (#[trigger] es[b]).0,
        es[j].0 == "$Attributes"@,
        es[j].1 is Object,
        0 <= i < es[j].1->Object_0.len(),
        forall|a: int, b: int|
            0 <= a < b < es[j].1->Object_0.len() ==> (#[trigger] es[j].1->Object_0[a]).0
                != (#[trigger] es[j].1->Object_0[b]).0,
    ensures
        assoc_get(parse_spec(JsonV::Object(es)).attributes, es[j].1->Object_0[i].0) == Some(
            es[j].1->Object_0[i].1,
        ),
{
    lemma_parse_attributes(es, es.len() as int, j, i);
}

/// Reading an object with no `$Properties` entry as a declaration, every
/// key without a `$` gives a property holding its value or, where the
/// value is an object naming no `$Type`, a child read from that object;
/// a `$` key that is no directive gives a child, named without its `$`,
/// where its value reads as a declaration.
pub proof fn law_parse_keys(es: Seq<(Seq<char>, JsonV)>, j: int)
    requires
        0 <= j < es.len(),
        forall|a: int, b: int| 0 <= a < b < es.len() ==> (#[trigger] es[a]).0 != (#[trigger] es[b]).0,
        forall|a: int| 0 <= a < es.len() ==> (#[trigger] es[a]).0 != "$Properties"@,
    ensures
        ({
            let r = parse_spec(JsonV::Object(es));
            let (k, v) = es[j];
            &&& (!dollar(k) && v is Object && !typed_spec(v)) ==> r.children.contains((k, parse_spec(v)))
            &&& (!dollar(k) && !(v is Object && !typed_spec(v))) ==> assoc_get(r.properties, k) == Some(v)
            &&& (dollar(k) && !directive(k) && is_declaration_spec(v)) ==> r.children.contains(
                (trim_leading(k, '$'), parse_spec(v)),
            )
        }),
{
    lemma_parse_keys(es, es.len() as int, j);
}

/// The warnings reading a value as a declaration gives, `origin` naming
/// where it came from: a value that is not an object, a `$` key that is no
/// directive (read as a child where it holds a declaration), at any depth.
pub open spec fn warnings_spec(v: JsonV, origin: Seq<char>) -> Seq<Seq<char>>
    decreases json_size(v), 0int,
{
    match v {
        JsonV::Object(es) => entry_warnings(es, es.len() as int, origin),
        _ => seq![origin + ": expected an object"@],
    }
}

/// The warnings of the first `n` entries of an object.
pub open spec fn entry_warnings(es: Seq<(Seq<char>, JsonV)>, n: int, origin: Seq<char>) -> Seq<Seq<char>>
    decreases entries_size(es), n,
{
    if n <= 0 || n > es.len() {
        Seq::empty()
    } else {
        proof {
            lemma_entry_smaller(es, n - 1);
        }
        let w = entry_warnings(es, n - 1, origin);
        let k = es[n - 1].0;
        let e = es[n - 1].1;
        if k == "$Children"@ {
            match e {
                JsonV::Object(cs) => w + child_warnings(cs, cs.len() as int, origin),
                _ => w,
            }
        } else if directive(k) {
            w
        } else if k.len() > 0 && k[0] == '$' {
            if is_declaration_spec(e) {
                w.push(
                    origin + ": \""@ + k + "\" is not a directive, reading it as the child \""@ + trim_leading(
                        k,
                        '$',
                    ) + "\""@,
                ) + warnings_spec(e, origin)
            } else {
                w.push(origin + ": unknown directive \""@ + k + "\""@)
            }
        } else if e is Object && !typed_spec(e) {
            w + warnings_spec(e, origin)
        } else {
            w
        }
    }
}

/// The warnings of the first `n` children a `$Children` object declares.
pub open spec fn child_warnings(cs: Seq<(Seq<char>, JsonV)>, n: int, origin: Seq<char>) -> Seq<Seq<char>>
    decreases entries_size(cs), n,
{
    if n <= 0 || n > cs.len() {
        Seq::empty()
    } else {
        proof {
            lemma_entry_smaller(cs, n - 1);
        }
        child_warnings(cs, n - 1, origin) + warnings_spec(cs[n - 1].1, origin)
    }
}

/// Appends `more` to `out`.
fn append_all(out: &mut Vec<String>, more: Vec<String>)
    ensures
        views(final(out)@) == views(old(out)@) + views(more@),
{
    let mut more = more;
    let ghost start = views(out@);
    let ghost all = views(more@);
    out.append(&mut more);
    assert(views(out@) =~= start + all);
}

/// The warnings reading `value` as a declaration gives (see
/// `warnings_spec`); `origin` names where it came from.
pub fn warnings(value: &Json, origin: &str) -> (r: Vec<String>)
    ensures
        views(r@) == warnings_spec(value@, origin@),
    decreases json_size(value@),
{
    let mut out: Vec<String> = Vec::new();
    let object = match value.as_object() {
        Some(object) => object,
        None => {
            let mut m = copy_str(origin);
            push_str(&mut m, ": expected an object");
            out.push(m);
            assert(views(out@) =~= seq![origin@ + ": expected an object"@]);
            return out;
        },
    };
    proof {
        reveal_strlit("$ClassName");
        reveal_strlit("$Parent");
        reveal_strlit("$Path");
        reveal_strlit("$FromModel");
        reveal_strlit("$Name");
        reveal_strlit("$Ignore");
        reveal_strlit("$ProjectID");
        reveal_strlit("$Default");
        reveal_strlit("$Properties");
        reveal_strlit("$Attributes");
        reveal_strlit("$Tags");
        reveal_strlit("$Children");
    }
    let ghost es = object@;
    let mut i: usize = 0;
    while i < object.len()
        invariant
            i <= es.len(),
            es == object@,
            value@ == JsonV::Object(es),
            views(out@) == entry_warnings(es, i as int, origin@),
        decreases es.len() - i,
    {
        proof {
            lemma_entry_smaller(es, i as int);
        }
        let key = object.key_at(i).as_str();
        let entry = object.value_at(i);
        if same_str(key, "$Children") {
            if let Some(fields) = entry.as_object() {
                let ghost cs = fields@;
                let ghost base = views(out@);
                let mut j: usize = 0;
                while j < fields.len()
                    invariant
                        j <= cs.len(),
                        cs == fields@,
                        entry@ == JsonV::Object(cs),
                        json_size(entry@) <= entries_size(es),
                        entries_size(es) < json_size(value@),
                        views(out@) == base + child_warnings(cs, j as int, origin@),
                    decreases cs.len() - j,
                {
                    proof {
                        lemma_entry_smaller(cs, j as int);
                    }
                    let more = warnings(fields.value_at(j), origin);
                    append_all(&mut out, more);
                    j = j + 1;
                }
            }
        } else if same_str(key, "$ClassName") || same_str(key, "$Parent") || same_str(key, "$Path")
            || same_str(key, "$FromModel") || same_str(key, "$Name") || same_str(key, "$Ignore")
            || same_str(key, "$ProjectID") || same_str(key, "$Default") || same_str(key, "$Properties")
            || same_str(key, "$Attributes") || same_str(key, "$Tags") {
        } else if directive_like(key) {
            if is_declaration(entry) {
                let mut m = copy_str(origin);
                push_str(&mut m, ": \"");
                push_str(&mut m, key);
                push_str(&mut m, "\" is not a directive, reading it as the child \"");
                let child = strip_leading(key, '$');
                push_str(&mut m, child.as_str());
                push_str(&mut m, "\"");
                out.push(m);
                let more = warnings(entry, origin);
                append_all(&mut out, more);
            } else {
                let mut m = copy_str(origin);
                push_str(&mut m, ": unknown directive \"");
                push_str(&mut m, key);
                push_str(&mut m, "\"");
                out.push(m);
            }
        } else if entry.is_object() && !typed(entry) {
            let more = warnings(entry, origin);
            append_all(&mut out, more);
        }
        assert(views(out@) == entry_warnings(es, i + 1, origin@));
        i = i + 1;
    }
    assert(es.len() == i);
    out
}

/// The warnings of the first `n` items of an array read as declarations.
pub open spec fn items_warnings(items: Seq<JsonV>, n: int, origin: Seq<char>) -> Seq<Seq<char>>
    decreases n,
{
    if n <= 0 || n > items.len() {
        Seq::empty()
    } else {
        items_warnings(items, n - 1, origin) + warnings_spec(items[n - 1], origin)
    }
}

/// The warnings reading a value as a list of declarations gives: those of
/// each item of an array, or of the single value.
pub open spec fn many_warnings_spec(v: JsonV, origin: Seq<char>) -> Seq<Seq<char>> {
    match v {
        JsonV::Array(items) => items_warnings(items, items.len() as int, origin),
        _ => warnings_spec(v, origin),
    }
}

/// The warnings reading `value` as a list of declarations gives (see
/// `many_warnings_spec`).
pub fn many_warnings(value: &Json, origin: &str) -> (r: Vec<String>)
    ensures
        views(r@) == many_warnings_spec(value@, origin@),
{
    match value.as_array() {
        Some(items) => {
            let mut out: Vec<String> = Vec::new();
            let mut i: usize = 0;
            while i < items.len()
                invariant
                    i <= items@.len(),
                    value@ == JsonV::Array(json_views(items@)),
                    views(out@) == items_warnings(json_views(items@), i as int, origin@),
                decreases items@.len() - i,
            {
                let more = warnings(&items[i], origin);
                append_all(&mut out, more);
                i = i + 1;
            }
            out
        },
        None => warnings(value, origin),
    }
}

/// What each item of an array declares, or what a single value declares.
pub open spec fn parse_many_spec(v: JsonV) -> Seq<MetaV> {
    match v {
        JsonV::Array(items) => items.map_values(|i: JsonV| parse_spec(i)),
        _ => seq![parse_spec(v)],
    }
}

/// The text of a string value.
pub fn text(value: &Json) -> (r: Option<String>)
    ensures
        opt_view(r) == text_of(value@),
{
    match value {
        Json::Text(s) => Some(s.clone()),
        _ => None,
    }
}

/// Whether a value is an object holding a `$Type` entry.
pub fn typed(value: &Json) -> (r: bool)
    ensures
        r == typed_spec(value@),
{
    proof {
        reveal_strlit("$Type");
    }
    match value.as_object() {
        Some(object) => object.contains_key("$Type"),
        None => false,
    }
}

/// Whether a value declares an instance (see `is_declaration_spec`).
pub fn is_declaration(value: &Json) -> (r: bool)
    ensures
        r == is_declaration_spec(value@),
    decreases json_size(value@),
{
    match value.as_object() {
        Some(object) => {
            if object.contains_key("$Type") {
                return false;
            }
            if object.contains_key("$ClassName") || object.contains_key("$Path")
                || object.contains_key("$FromModel") || object.contains_key("$Properties")
                || object.contains_key("$Children") {
                return true;
            }
            let ghost es = object@;
            let mut i: usize = 0;
            while i < object.len()
                invariant
                    i <= es.len(),
                    es == object@,
                    value@ == JsonV::Object(es),
                    assoc_get(es, "$Type"@) is None,
                    !any_declaration(es, i as int),
                decreases es.len() - i,
            {
                proof {
                    lemma_entry_smaller(es, i as int);
                }
                if is_declaration(object.value_at(i)) {
                    proof {
                        assert(any_declaration(es, i + 1));
                        lemma_any_mono(es, i + 1, es.len() as int);
                    }
                    return true;
                }
                i = i + 1;
            }
            false
        },
        None => false,
    }
}

proof fn lemma_any_mono(es: Seq<(Seq<char>, JsonV)>, a: int, b: int)
    requires
        0 <= a <= b <= es.len(),
        any_declaration(es, a),
    ensures
        any_declaration(es, b),
    decreases b - a,
{
    if a < b {
        lemma_any_mono(es, a, b - 1);
    }
}

/// Whether `k` starts with `$`.
fn directive_like(k: &str) -> (r: bool)
    ensures
        r == (k@.len() > 0 && k@[0] == '$'),
{
    let cs = chars_of(k);
    cs.len() > 0 && cs[0] == '$'
}

/// Every entry of `from` inserted into `into`.
pub fn insert_each(into: &mut JsonMap, from: &JsonMap)
    ensures
        final(into)@ == insert_all(old(into)@, from@),
{
    let ghost start = into@;
    let mut i: usize = 0;
    while i < from.len()
        invariant
            i <= from@.len(),
            into@ == insert_all(start, from@.take(i as int)),
        decreases from@.len() - i,
    {
        into.insert(from.key_at(i).clone(), from.value_at(i).clone());
        assert(from@.take(i + 1).drop_last() =~= from@.take(i as int));
        i = i + 1;
    }
    assert(from@.take(from@.len() as int) =~= from@);
}

/// The string items of an array, in order.
fn text_items(items: &Vec<Json>) -> (r: Vec<String>)
    ensures
        views(r@) == texts(crate::json::json_views(items@)),
{
    let ghost vs = crate::json::json_views(items@);
    let mut out: Vec<String> = Vec::new();
    let mut i: usize = 0;
    while i < items.len()
        invariant
            i <= items@.len(),
            vs == crate::json::json_views(items@),
            views(out@) == texts(vs.take(i as int)),
        decreases items@.len() - i,
    {
        assert(vs.take(i + 1).drop_last() =~= vs.take(i as int));
        assert(vs.take(i + 1).last() == items@[i as int]@);
        match items[i].as_str() {
            Some(s) => {
                let ghost prev = views(out@);
                out.push(s.clone());
                assert(views(out@) =~= prev.push(s@));
            },
            None => {},
        }
        i = i + 1;
    }
    assert(vs.take(vs.len() as int) =~= vs);
    out
}

/// What a value declares. Directives start with `$`; any other key holding
/// a non-typed object is a child, and any other key a property.
pub fn parse(value: &Json) -> (r: Meta)
    ensures
        r@ == parse_spec(value@),
    decreases json_size(value@),
{
    let mut meta = Meta::default();
    let object = match value.as_object() {
        Some(object) => object,
        None => return meta,
    };
    proof {
        reveal_strlit("$ClassName");
        reveal_strlit("$Parent");
        reveal_strlit("$Path");
        reveal_strlit("$FromModel");
        reveal_strlit("$Name");
        reveal_strlit("$Ignore");
        reveal_strlit("$ProjectID");
        reveal_strlit("$Default");
        reveal_strlit("$Properties");
        reveal_strlit("$Attributes");
        reveal_strlit("$Tags");
        reveal_strlit("$Children");
    }
    let ghost es = object@;
    let mut i: usize = 0;
    while i < object.len()
        invariant
            i <= es.len(),
            es == object@,
            value@ == JsonV::Object(es),
            meta@ == parse_entries(es, i as int),
        decreases es.len() - i,
    {
        proof {
            lemma_entry_smaller(es, i as int);
        }
        let key = object.key_at(i).as_str();
        let entry = object.value_at(i);
        let ghost m = meta@;
        if same_str(key, "$ClassName") {
            meta.class_name = text(entry);
            assert(meta@ == parse_entries(es, i + 1));
        } else if same_str(key, "$Parent") {
            meta.parent = text(entry);
            assert(meta@ == parse_entries(es, i + 1));
        } else if same_str(key, "$Path") {
            meta.path = text(entry);
            assert(meta@ == parse_entries(es, i + 1));
        } else if same_str(key, "$FromModel") {
            meta.from_model = text(entry);
        } else if same_str(key, "$Name") {
            meta.name = text(entry);
            assert(meta@ == parse_entries(es, i + 1));
        } else if same_str(key, "$Ignore") {
            meta.ignore = match entry.as_bool() {
                Some(b) => b,
                None => false,
            };
            assert(meta@ == parse_entries(es, i + 1));
        } else if same_str(key, "$ProjectID") || same_str(key, "$Default") {
            assert(meta@ == parse_entries(es, i + 1));
        } else if same_str(key, "$Properties") {
            if let Some(fields) = entry.as_object() {
                insert_each(&mut meta.properties, fields);
            }
            assert(meta@ == parse_entries(es, i + 1));
        } else if same_str(key, "$Attributes") {
            if let Some(fields) = entry.as_object() {
                insert_each(&mut meta.attributes, fields);
            }
            assert(meta@ == parse_entries(es, i + 1));
        } else if same_str(key, "$Tags") {
            if let Some(items) = entry.as_array() {
                let found = text_items(items);
                let mut j: usize = 0;
                let ghost base = views(meta.tags@);
                assert(meta@ == (MetaV { tags: views(meta.tags@), ..m }));
                while j < found.len()
                    invariant
                        j <= found@.len(),
                        views(meta.tags@) == base + views(found@).take(j as int),
                        meta@ == (MetaV { tags: views(meta.tags@), ..m }),
                    decreases found@.len() - j,
                {
                    let ghost prev = views(meta.tags@);
                    meta.tags.push(found[j].clone());
                    assert(views(meta.tags@) =~= prev.push(found@[j as int]@));
                    assert(views(found@).take(j + 1) =~= views(found@).take(j as int).push(
                        found@[j as int]@,
                    ));
                    assert(views(meta.tags@) =~= base + views(found@).take(j + 1));
                    j = j + 1;
                }
                assert(views(found@).take(found@.len() as int) =~= views(found@));
            }
            assert(meta@ == parse_entries(es, i + 1));
        } else if same_str(key, "$Children") {
            if let Some(fields) = entry.as_object() {
                let ghost cs = fields@;
                let ghost base = meta@.children;
                let mut j: usize = 0;
                while j < fields.len()
                    invariant
                        j <= cs.len(),
                        cs == fields@,
                        entry@ == JsonV::Object(cs),
                        json_size(entry@) <= entries_size(es),
                        entries_size(es) < json_size(value@),
                        meta@ == (MetaV { children: base + parsed_children(cs, j as int), ..m }),
                    decreases cs.len() - j,
                {
                    proof {
                        lemma_entry_smaller(cs, j as int);
                    }
                    let child = parse(fields.value_at(j));
                    let ghost before = meta@;
                    meta.children.push((fields.key_at(j).clone(), child));
                    assert(meta@.children =~= before.children.push((cs[j as int].0, child@)));
                    j = j + 1;
                }
            }
            assert(meta@ == parse_entries(es, i + 1));
        } else if directive_like(key) {
            if is_declaration(entry) {
                let child = parse(entry);
                let ghost before = meta@;
                meta.children.push((strip_leading(key, '$'), child));
                assert(meta@.children =~= before.children.push((trim_leading(key@, '$'), child@)));
            }
            assert(meta@ == parse_entries(es, i + 1));
        } else if entry.is_object() && !typed(entry) {
            let child = parse(entry);
            let ghost before = meta@;
            meta.children.push((object.key_at(i).clone(), child));
            assert(meta@.children =~= before.children.push((key@, child@)));
            assert(meta@ == parse_entries(es, i + 1));
        } else {
            meta.properties.insert(object.key_at(i).clone(), entry.clone());
            assert(meta@ == parse_entries(es, i + 1));
        }
        assert(meta@ == parse_entries(es, i + 1));
        i = i + 1;
    }
    meta
}

/// What each item of an array declares, or what a single value declares.
pub fn parse_many(value: &Json) -> (r: Vec<Meta>)
    ensures
        r@.map_values(|m: Meta| m@) == parse_many_spec(value@),
{
    match value.as_array() {
        Some(items) => {
            let mut out: Vec<Meta> = Vec::new();
            let mut i: usize = 0;
            while i < items.len()
                invariant
                    i <= items@.len(),
                    out@.len() == i,
                    forall|k: int| 0 <= k < i ==> (#[trigger] out@[k])@ == parse_spec(items@[k]@),
                decreases items@.len() - i,
            {
                out.push(parse(&items[i]));
                i = i + 1;
            }
            assert(out@.map_values(|m: Meta| m@) =~= parse_many_spec(value@));
            out
        },
        None => {
            let out = vec![parse(value)];
            assert(out@.map_values(|m: Meta| m@) =~= parse_many_spec(value@));
            out
        },
    }
}

/// The value a declaration file holds: its text without a leading byte
/// order mark, an empty object when nothing but white space is left.
pub open spec fn decoded(raw: Seq<char>) -> Option<JsonV> {
    let t = trim_leading(raw, '\u{feff}');
    if trim(t).len() == 0 {
        Some(JsonV::Object(Seq::empty()))
    } else {
        json_parsed(t)
    }
}

/// The value a declaration file holds (see `decoded`); `None` where the
/// text is not JSON.
pub fn decode(raw: &str) -> (r: Option<Json>)
    ensures
        opt_json_view(r) == decoded(raw@),
{
    let t = strip_leading(raw, '\u{feff}');
    let cs = chars_of(t.as_str());
    if trim_chars(cs.as_slice()).len() == 0 {
        Some(Json::Object(JsonMap::new()))
    } else {
        parse_json(t.as_str())
    }
}

} // verus!
