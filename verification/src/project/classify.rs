//! What a file of the project becomes, judged by its name.
use vstd::prelude::*;
use crate::text::{
    chars_of, ends_with, ends_with_str, eq_ignore_case, eq_ignore_case_chars, lower, lower_chars,
    lower_char, same_chars, same_str, starts_with, starts_with_str, string_of,
};

verus! {

/// The kind of script a Luau file becomes.
#[derive(Clone, Copy, Debug, PartialEq, Eq, Structural)]
pub enum Script {
    Module,
    Server,
    Client,
}

/// What a file is.
#[derive(Clone, Debug, PartialEq, Eq)]
pub enum Kind {
    Ignored,
    InitMeta,
    InitScript(Script),
    Script(Script),
    Instance,
    Sidecar(String),
    Asset(String),
}

/// `Kind` with its text as character sequences.
pub enum KindV {
    Ignored,
    InitMeta,
    InitScript(Script),
    Script(Script),
    Instance,
    Sidecar(Seq<char>),
    Asset(Seq<char>),
}

impl View for Kind {
    type V = KindV;

    open spec fn view(&self) -> KindV {
        match self {
            Kind::Ignored => KindV::Ignored,
            Kind::InitMeta => KindV::InitMeta,
            Kind::InitScript(s) => KindV::InitScript(*s),
            Kind::Script(s) => KindV::Script(*s),
            Kind::Instance => KindV::Instance,
            Kind::Sidecar(stem) => KindV::Sidecar(stem@),
            Kind::Asset(ext) => KindV::Asset(ext@),
        }
    }
}

/// The class name of each kind of script.
pub open spec fn script_class(s: Script) -> Seq<char> {
    match s {
        Script::Module => "ModuleScript"@,
        Script::Server => "Script"@,
        Script::Client => "LocalScript"@,
    }
}

impl Script {
    /// `ModuleScript`, `Script` or `LocalScript`.
    pub fn class_name(self) -> (r: &'static str)
        ensures
            r@ == script_class(self),
    {
        match self {
            Script::Module => "ModuleScript",
            Script::Server => "Script",
            Script::Client => "LocalScript",
        }
    }
}

/// A Luau source file, `.luau` or `.lua`.
pub open spec fn is_luau_spec(name: Seq<char>) -> bool {
    ends_with(name, ".luau"@) || ends_with(name, ".lua"@)
}

/// A type definition file, `.d.luau` or `.d.lua`.
pub open spec fn definition_spec(name: Seq<char>) -> bool {
    ends_with(name, ".d.luau"@) || ends_with(name, ".d.lua"@)
}

/// The index of the last `c` in `s`.
pub open spec fn last_index_of(s: Seq<char>, c: char) -> Option<int>
    decreases s.len(),
{
    if s.len() == 0 {
        None
    } else if s.last() == c {
        Some(s.len() - 1)
    } else {
        last_index_of(s.drop_last(), c)
    }
}

pub proof fn lemma_last_index_of(s: Seq<char>, c: char)
    ensures
        last_index_of(s, c) matches Some(i) ==> 0 <= i < s.len() && s[i] == c && forall|k: int|
            i < k < s.len() ==> s[k] != c,
        last_index_of(s, c) is None ==> forall|k: int| 0 <= k < s.len() ==> s[k] != c,
    decreases s.len(),
{
    if s.len() > 0 {
        let t = s.drop_last();
        lemma_last_index_of(t, c);
        if s.last() != c {
            assert forall|k: int| 0 <= k < t.len() implies t[k] == s[k] by {}
        }
    }
}

/// The text after the last `.`, in lower case; empty with no `.`.
pub open spec fn extension_spec(name: Seq<char>) -> Seq<char> {
    match last_index_of(name, '.') {
        Some(i) => lower(name.skip(i + 1)),
        None => Seq::empty(),
    }
}

/// The text before the last `.`; all of it with no `.`.
pub open spec fn stem_spec(name: Seq<char>) -> Seq<char> {
    match last_index_of(name, '.') {
        Some(i) => name.take(i),
        None => name,
    }
}

/// The script suffix that a lower-case name ends with, first match in the
/// order `.server.luau`, `.server.lua`, `.client.luau`, `.client.lua`,
/// `.luau`, `.lua`.
pub open spec fn script_suffix(lower: Seq<char>) -> Option<(Seq<char>, Script)> {
    if ends_with(lower, ".server.luau"@) {
        Some((".server.luau"@, Script::Server))
    } else if ends_with(lower, ".server.lua"@) {
        Some((".server.lua"@, Script::Server))
    } else if ends_with(lower, ".client.luau"@) {
        Some((".client.luau"@, Script::Client))
    } else if ends_with(lower, ".client.lua"@) {
        Some((".client.lua"@, Script::Client))
    } else if ends_with(lower, ".luau"@) {
        Some((".luau"@, Script::Module))
    } else if ends_with(lower, ".lua"@) {
        Some((".lua"@, Script::Module))
    } else {
        None
    }
}

/// What a file named `name` is, and the name of the instance it makes.
pub open spec fn classify_spec(name: Seq<char>) -> (KindV, Seq<char>) {
    let low = lower(name);
    if definition_spec(low) || starts_with(low, "."@) {
        (KindV::Ignored, Seq::empty())
    } else if low == "init.meta.json"@ {
        (KindV::InitMeta, Seq::empty())
    } else if low == "default.project.json"@ {
        (KindV::Ignored, Seq::empty())
    } else {
        match script_suffix(low) {
            Some((suffix, script)) => {
                let stem = name.take(name.len() - suffix.len());
                if eq_ignore_case(stem, "init"@) {
                    (KindV::InitScript(script), Seq::empty())
                } else {
                    (KindV::Script(script), stem)
                }
            },
            None => if ends_with(low, ".inst.json"@) {
                (KindV::Instance, name.take(name.len() - ".inst.json"@.len()))
            } else if ends_with(low, ".meta.json"@) {
                let stem = name.take(name.len() - ".meta.json"@.len());
                (KindV::Sidecar(stem), stem)
            } else {
                (KindV::Asset(extension_spec(low)), stem_spec(name))
            },
        }
    }
}

/// The class of instance an asset with this extension becomes.
pub open spec fn asset_class_spec(extension: Seq<char>) -> Option<Seq<char>> {
    if extension == "txt"@ || extension == "md"@ || extension == "csv"@ || extension == "html"@
        || extension == "css"@ || extension == "toml"@ || extension == "yml"@ || extension
        == "yaml"@ {
        Some("StringValue"@)
    } else if extension == "json"@ {
        Some("ModuleScript"@)
    } else {
        None
    }
}

/// Whether `name` is a Luau source file.
pub fn is_luau(name: &str) -> (r: bool)
    ensures
        r == is_luau_spec(name@),
{
    let cs = chars_of(name);
    ends_with_str(cs.as_slice(), ".luau") || ends_with_str(cs.as_slice(), ".lua")
}

/// Whether `name` is a type definition file.
pub fn definition(name: &str) -> (r: bool)
    ensures
        r == definition_spec(name@),
{
    let cs = chars_of(name);
    ends_with_str(cs.as_slice(), ".d.luau") || ends_with_str(cs.as_slice(), ".d.lua")
}

fn last_dot(s: &[char]) -> (r: Option<usize>)
    ensures
        r matches Some(i) ==> last_index_of(s@, '.') == Some(i as int),
        r is None ==> last_index_of(s@, '.') is None,
{
    let mut i: usize = s.len();
    assert(s@.take(i as int) =~= s@);
    while i > 0
        invariant
            i <= s@.len(),
            last_index_of(s@, '.') == last_index_of(s@.take(i as int), '.'),
        decreases i,
    {
        assert(s@.take(i as int).drop_last() =~= s@.take(i - 1));
        if s[i - 1] == '.' {
            return Some(i - 1);
        }
        i = i - 1;
    }
    None
}

fn take_chars(s: &[char], n: usize) -> (r: Vec<char>)
    requires
        n <= s@.len(),
    ensures
        r@ == s@.take(n as int),
{
    let mut out: Vec<char> = Vec::new();
    let mut i: usize = 0;
    while i < n
        invariant
            n <= s@.len(),
            i <= n,
            out@ == s@.take(i as int),
        decreases n - i,
    {
        out.push(s[i]);
        assert(s@.take(i + 1) =~= s@.take(i as int).push(s@[i as int]));
        i = i + 1;
    }
    out
}

fn skip_chars(s: &[char], n: usize) -> (r: Vec<char>)
    requires
        n <= s@.len(),
    ensures
        r@ == s@.skip(n as int),
{
    let mut out: Vec<char> = Vec::new();
    let mut i: usize = n;
    while i < s.len()
        invariant
            n <= i <= s@.len(),
            out@ == s@.subrange(n as int, i as int),
        decreases s@.len() - i,
    {
        out.push(s[i]);
        assert(s@.subrange(n as int, i + 1) =~= s@.subrange(n as int, i as int).push(s@[i as int]));
        i = i + 1;
    }
    out
}

fn extension_chars(name: &[char]) -> (r: Vec<char>)
    ensures
        r@ == extension_spec(name@),
{
    match last_dot(name) {
        Some(i) => {
            proof {
                lemma_last_index_of(name@, '.');
            }
            let n = name.len();
            assert(i < n);
            let tail = skip_chars(name, i + 1);
            lower_chars(tail.as_slice())
        },
        None => Vec::new(),
    }
}

/// The extension of `name` in lower case: what follows its last `.`, or
/// nothing when it has none.
pub fn extension(name: &str) -> (r: String)
    ensures
        r@ == extension_spec(name@),
{
    let cs = chars_of(name);
    let e = extension_chars(cs.as_slice());
    string_of(e.as_slice())
}

fn script_suffix_of(low: &[char]) -> (r: Option<(&'static str, Script)>)
    ensures
        r matches Some((suffix, script)) ==> script_suffix(low@) == Some((suffix@, script)),
        r is None ==> script_suffix(low@) is None,
{
    if ends_with_str(low, ".server.luau") {
        Some((".server.luau", Script::Server))
    } else if ends_with_str(low, ".server.lua") {
        Some((".server.lua", Script::Server))
    } else if ends_with_str(low, ".client.luau") {
        Some((".client.luau", Script::Client))
    } else if ends_with_str(low, ".client.lua") {
        Some((".client.lua", Script::Client))
    } else if ends_with_str(low, ".luau") {
        Some((".luau", Script::Module))
    } else if ends_with_str(low, ".lua") {
        Some((".lua", Script::Module))
    } else {
        None
    }
}

proof fn lemma_lower_len(s: Seq<char>)
    ensures
        lower(s).len() == s.len(),
{
}

/// What a file named `name` is, and the name of the instance it makes:
/// scripts by their `.server`, `.client` or plain Luau suffix, `init` scripts
/// and `init.meta.json` for their folder, `.inst.json` instances,
/// `.meta.json` sidecars, type definitions and dot files ignored, anything
/// else an asset by its extension.
pub fn classify(name: &str) -> (r: (Kind, String))
    ensures
        (r.0@, r.1@) == classify_spec(name@),
{
    let cs = chars_of(name);
    let low = lower_chars(cs.as_slice());
    proof {
        lemma_lower_len(cs@);
    }
    if ends_with_str(low.as_slice(), ".d.luau") || ends_with_str(low.as_slice(), ".d.lua")
        || starts_with_str(low.as_slice(), ".") {
        return (Kind::Ignored, String::new());
    }
    let init_meta = chars_of("init.meta.json");
    if same_chars(low.as_slice(), init_meta.as_slice()) {
        return (Kind::InitMeta, String::new());
    }
    let manifest = chars_of("default.project.json");
    if same_chars(low.as_slice(), manifest.as_slice()) {
        return (Kind::Ignored, String::new());
    }
    match script_suffix_of(low.as_slice()) {
        Some((suffix, script)) => {
            let suf = chars_of(suffix);
            let stem = take_chars(cs.as_slice(), cs.len() - suf.len());
            let init = chars_of("init");
            if eq_ignore_case_chars(stem.as_slice(), init.as_slice()) {
                (Kind::InitScript(script), String::new())
            } else {
                (Kind::Script(script), string_of(stem.as_slice()))
            }
        },
        None => {
            if ends_with_str(low.as_slice(), ".inst.json") {
                let suf = chars_of(".inst.json");
                let stem = take_chars(cs.as_slice(), cs.len() - suf.len());
                (Kind::Instance, string_of(stem.as_slice()))
            } else if ends_with_str(low.as_slice(), ".meta.json") {
                let suf = chars_of(".meta.json");
                let stem = take_chars(cs.as_slice(), cs.len() - suf.len());
                (Kind::Sidecar(string_of(stem.as_slice())), string_of(stem.as_slice()))
            } else {
                let ext = extension_chars(low.as_slice());
                proof {
                    lemma_last_index_of(cs@, '.');
                }
                let stem = match last_dot(cs.as_slice()) {
                    Some(i) => take_chars(cs.as_slice(), i),
                    None => take_chars(cs.as_slice(), cs.len()),
                };
                assert(cs@.take(cs@.len() as int) =~= cs@);
                (Kind::Asset(string_of(ext.as_slice())), string_of(stem.as_slice()))
            }
        },
    }
}

/// The class an asset becomes: `StringValue` for text formats, a
/// `ModuleScript` for JSON, nothing for other extensions.
pub fn asset_class(extension: &str) -> (r: Option<&'static str>)
    ensures
        r matches Some(c) ==> asset_class_spec(extension@) == Some(c@),
        r is None ==> asset_class_spec(extension@) is None,
{
    if same_str(extension, "txt") || same_str(extension, "md") || same_str(extension, "csv")
        || same_str(extension, "html") || same_str(extension, "css") || same_str(extension, "toml")
        || same_str(extension, "yml") || same_str(extension, "yaml") {
        Some("StringValue")
    } else if same_str(extension, "json") {
        Some("ModuleScript")
    } else {
        None
    }
}

/// The classes assets become: `StringValue` for the text formats `txt`,
/// `md`, `csv`, `html`, `css`, `toml`, `yml` and `yaml`, a `ModuleScript`
/// for `json`.
pub proof fn law_asset_classes()
    ensures
        asset_class_spec("txt"@) == Some("StringValue"@),
        asset_class_spec("md"@) == Some("StringValue"@),
        asset_class_spec("csv"@) == Some("StringValue"@),
        asset_class_spec("html"@) == Some("StringValue"@),
        asset_class_spec("css"@) == Some("StringValue"@),
        asset_class_spec("toml"@) == Some("StringValue"@),
        asset_class_spec("yml"@) == Some("StringValue"@),
        asset_class_spec("yaml"@) == Some("StringValue"@),
        asset_class_spec("json"@) == Some("ModuleScript"@),
        asset_class_spec("png"@) is None,
        asset_class_spec("rbxm"@) is None,
        asset_class_spec(""@) is None,
{
    reveal_strlit("png");
    reveal_strlit("rbxm");
    reveal_strlit("");
    assert("png"@[0] == 'p' && "rbxm"@[0] == 'r' && ""@.len() == 0);
    reveal_strlit("txt");
    reveal_strlit("md");
    reveal_strlit("csv");
    reveal_strlit("html");
    reveal_strlit("css");
    reveal_strlit("toml");
    reveal_strlit("yml");
    reveal_strlit("yaml");
    reveal_strlit("json");
    assert("json"@[0] == 'j');
    assert("txt"@.len() != 4 && "md"@.len() != 4 && "csv"@.len() != 4 && "css"@.len() != 4 && "yml"@.len() != 4);
    assert("html"@[0] != 'j' && "toml"@[0] != 'j' && "yaml"@[0] != 'j');
    assert("json"@ != "html"@ && "json"@ != "toml"@ && "json"@ != "yaml"@);
    assert("png"@ != "txt"@ && "png"@ != "md"@ && "png"@ != "csv"@ && "png"@ != "css"@ && "png"@ != "yml"@
        && "png"@ != "html"@ && "png"@ != "toml"@ && "png"@ != "yaml"@ && "png"@ != "json"@) by {
        assert("txt"@[0] == 't' && "csv"@[0] == 'c' && "css"@[0] == 'c' && "yml"@[0] == 'y');
    }
    assert("rbxm"@ != "txt"@ && "rbxm"@ != "md"@ && "rbxm"@ != "csv"@ && "rbxm"@ != "css"@ && "rbxm"@ != "yml"@
        && "rbxm"@ != "html"@ && "rbxm"@ != "toml"@ && "rbxm"@ != "yaml"@ && "rbxm"@ != "json"@);
}

/// A type definition file is a Luau file too.
pub proof fn law_definition_is_luau(name: Seq<char>)
    requires
        definition_spec(name),
    ensures
        is_luau_spec(name),
{
    reveal_strlit(".d.luau");
    reveal_strlit(".d.lua");
    reveal_strlit(".luau");
    reveal_strlit(".lua");
    if ends_with(name, ".d.luau"@) {
        assert(name.subrange(name.len() - 5, name.len() as int) =~= name.subrange(
            name.len() - 7,
            name.len() as int,
        ).subrange(2, 7));
        assert(".d.luau"@.subrange(2, 7) =~= ".luau"@);
    } else {
        assert(name.subrange(name.len() - 4, name.len() as int) =~= name.subrange(
            name.len() - 6,
            name.len() as int,
        ).subrange(2, 6));
        assert(".d.lua"@.subrange(2, 6) =~= ".lua"@);
    }
}

proof fn lemma_lower_concat(a: Seq<char>, b: Seq<char>)
    ensures
        lower(a + b) == lower(a) + lower(b),
{
    assert(lower(a + b) =~= lower(a) + lower(b));
}

proof fn lemma_lower_keeps_dots(a: Seq<char>)
    requires
        forall|i: int| 0 <= i < a.len() ==> a[i] != '.',
    ensures
        forall|i: int| 0 <= i < lower(a).len() ==> lower(a)[i] != '.',
        lower(a).len() == a.len(),
{
    assert forall|i: int| 0 <= i < lower(a).len() implies lower(a)[i] != '.' by {
        assert(lower(a)[i] == lower_char(a[i]));
    }
}

/// A file named after its instance with a script suffix makes a script of
/// that instance's name: `.server.luau` a `Script`, `.client.luau` a
/// `LocalScript`, `.luau` a `ModuleScript` (for a name without dots that
/// is not `init`).
pub proof fn law_script_suffixes(stem: Seq<char>)
    requires
        stem.len() > 0,
        forall|i: int| 0 <= i < stem.len() ==> stem[i] != '.',
        !eq_ignore_case(stem, "init"@),
    ensures
        classify_spec(stem + ".server.luau"@) == (KindV::Script(Script::Server), stem),
        classify_spec(stem + ".client.luau"@) == (KindV::Script(Script::Client), stem),
        classify_spec(stem + ".luau"@) == (KindV::Script(Script::Module), stem),
{
    reveal_strlit(".server.luau");
    reveal_strlit(".server.lua");
    reveal_strlit(".client.luau");
    reveal_strlit(".client.lua");
    reveal_strlit(".luau");
    reveal_strlit(".lua");
    reveal_strlit(".d.luau");
    reveal_strlit(".d.lua");
    reveal_strlit(".");
    reveal_strlit("init.meta.json");
    reveal_strlit("default.project.json");
    lemma_lower_keeps_dots(stem);
    let ls = lower(stem);
    let n = stem.len() as int;
    assert(lower(".server.luau"@) =~= ".server.luau"@);
    assert(lower(".client.luau"@) =~= ".client.luau"@);
    assert(lower(".luau"@) =~= ".luau"@);
    lemma_lower_concat(stem, ".server.luau"@);
    lemma_lower_concat(stem, ".client.luau"@);
    lemma_lower_concat(stem, ".luau"@);
    let a = ls + ".server.luau"@;
    let b = ls + ".client.luau"@;
    let c = ls + ".luau"@;
    assert(ls[0] != '.');
    assert(a[0] == ls[0] && b[0] == ls[0] && c[0] == ls[0]);
    assert(!starts_with(a, "."@)) by {
        if starts_with(a, "."@) {
            assert(a.subrange(0, 1)[0] == a[0]);
        }
    }
    assert(!starts_with(b, "."@)) by {
        if starts_with(b, "."@) {
            assert(b.subrange(0, 1)[0] == b[0]);
        }
    }
    assert(!starts_with(c, "."@)) by {
        if starts_with(c, "."@) {
            assert(c.subrange(0, 1)[0] == c[0]);
        }
    }
    assert(!definition_spec(a)) by {
        if ends_with(a, ".d.lua"@) {
            assert(a.subrange(a.len() - 6, a.len() as int)[5] == a[a.len() - 1]);
        }
        if ends_with(a, ".d.luau"@) {
            assert(a.subrange(a.len() - 7, a.len() as int)[1] == a[a.len() - 6]);
        }
    }
    assert(!definition_spec(b)) by {
        if ends_with(b, ".d.lua"@) {
            assert(b.subrange(b.len() - 6, b.len() as int)[5] == b[b.len() - 1]);
        }
        if ends_with(b, ".d.luau"@) {
            assert(b.subrange(b.len() - 7, b.len() as int)[1] == b[b.len() - 6]);
        }
    }
    assert(!definition_spec(c)) by {
        if ends_with(c, ".d.lua"@) {
            assert(c.subrange(c.len() - 6, c.len() as int)[5] == c[c.len() - 1]);
        }
        if ends_with(c, ".d.luau"@) {
            assert(c.subrange(c.len() - 7, c.len() as int)[0] == c[c.len() - 7]);
            assert(c[c.len() - 7] == ls[n - 2]);
        }
    }
    assert(a != "init.meta.json"@ && a != "default.project.json"@) by {
        assert(a[a.len() - 1] == 'u');
    }
    assert(b != "init.meta.json"@ && b != "default.project.json"@) by {
        assert(b[b.len() - 1] == 'u');
    }
    assert(c != "init.meta.json"@ && c != "default.project.json"@) by {
        assert(c[c.len() - 1] == 'u');
    }
    assert(a.subrange(a.len() - 12, a.len() as int) =~= ".server.luau"@);
    assert(b.subrange(b.len() - 12, b.len() as int) =~= ".client.luau"@);
    assert(!ends_with(b, ".server.luau"@)) by {
        if ends_with(b, ".server.luau"@) {
            assert(b.subrange(b.len() - 12, b.len() as int)[1] == b[b.len() - 11]);
        }
    }
    assert(!ends_with(b, ".server.lua"@)) by {
        if ends_with(b, ".server.lua"@) {
            assert(b.subrange(b.len() - 11, b.len() as int)[10] == b[b.len() - 1]);
        }
    }
    assert(!ends_with(c, ".server.luau"@)) by {
        if ends_with(c, ".server.luau"@) {
            assert(c.subrange(c.len() - 12, c.len() as int)[0] == c[c.len() - 12]);
            assert(c[c.len() - 12] == ls[n - 7]);
        }
    }
    assert(!ends_with(c, ".server.lua"@)) by {
        if ends_with(c, ".server.lua"@) {
            assert(c.subrange(c.len() - 11, c.len() as int)[10] == c[c.len() - 1]);
        }
    }
    assert(!ends_with(c, ".client.luau"@)) by {
        if ends_with(c, ".client.luau"@) {
            assert(c.subrange(c.len() - 12, c.len() as int)[0] == c[c.len() - 12]);
            assert(c[c.len() - 12] == ls[n - 7]);
        }
    }
    assert(!ends_with(c, ".client.lua"@)) by {
        if ends_with(c, ".client.lua"@) {
            assert(c.subrange(c.len() - 11, c.len() as int)[10] == c[c.len() - 1]);
        }
    }
    assert(c.subrange(c.len() - 5, c.len() as int) =~= ".luau"@);
    assert((stem + ".server.luau"@).take(n) =~= stem);
    assert((stem + ".client.luau"@).take(n) =~= stem);
    assert((stem + ".luau"@).take(n) =~= stem);
}

proof fn lemma_lower_char_idem(c: char)
    ensures
        lower_char(lower_char(c)) == lower_char(c),
{
    if 'A' <= c && c <= 'Z' {
        assert(('A' as int) <= (c as int) <= ('Z' as int));
        assert((c as u8) as int == c as int);
        assert(((c as u8) + 32u8) as int == c as int + 32);
        assert((((c as u8) + 32u8) as char) as int == c as int + 32);
    }
}

proof fn lemma_lower_idem(s: Seq<char>)
    ensures
        lower(lower(s)) == lower(s),
{
    assert forall|i: int| 0 <= i < s.len() implies #[trigger] lower(lower(s))[i] == lower(s)[i] by {
        lemma_lower_char_idem(s[i]);
    }
    assert(lower(lower(s)) =~= lower(s));
}

proof fn lemma_lower_take(s: Seq<char>, n: int)
    requires
        0 <= n <= s.len(),
    ensures
        lower(s).take(n) == lower(s.take(n)),
{
    assert(lower(s).take(n) =~= lower(s.take(n)));
}

/// What the classifier gives back as the instance's name is where the file
/// name starts; the files that make no instance of their own, and folders'
/// init files, give none; a sidecar names what it declares; and the kind of
/// a file does not depend on the case of its name, but for a sidecar's
/// name.
pub proof fn law_classify_shape(name: Seq<char>)
    ensures
        classify_spec(name).1.len() <= name.len(),
        name.take(classify_spec(name).1.len() as int) == classify_spec(name).1,
        (classify_spec(name).0 is Ignored || classify_spec(name).0 is InitMeta || classify_spec(name).0 is InitScript)
            ==> classify_spec(name).1.len() == 0,
        classify_spec(name).0 matches KindV::Sidecar(x) ==> x == classify_spec(name).1,
        !(classify_spec(name).0 is Sidecar) ==> classify_spec(lower(name)).0 == classify_spec(name).0,
{
    let low = lower(name);
    lemma_lower_idem(name);
    let (k, st) = classify_spec(name);
    assert(name.take(0) =~= Seq::<char>::empty());
    if !(definition_spec(low) || starts_with(low, "."@)) && low != "init.meta.json"@ && low
        != "default.project.json"@ {
        match script_suffix(low) {
            Some((suffix, script)) => {
                assert(suffix.len() <= low.len());
                let n = name.len() - suffix.len();
                lemma_lower_take(name, n);
                lemma_lower_idem(name.take(n));
                assert(lower(name).take(n) == lower(name.take(n)));
                assert(name.take(n).take(n) =~= name.take(n));
            },
            None => {
                if ends_with(low, ".inst.json"@) {
                    let n = name.len() - ".inst.json"@.len();
                    assert(name.take(n).take(n) =~= name.take(n));
                } else if ends_with(low, ".meta.json"@) {
                    let n = name.len() - ".meta.json"@.len();
                    assert(name.take(n).take(n) =~= name.take(n));
                } else {
                    match last_index_of(name, '.') {
                        Some(i) => {
                            lemma_last_index_of(name, '.');
                            assert(name.take(i).take(i) =~= name.take(i));
                        },
                        None => {
                            assert(name.take(name.len() as int) =~= name);
                        },
                    }
                }
            },
        }
    }
}

} // verus!
