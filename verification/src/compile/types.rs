//! The editor support a project gets: Luau type definitions for the hook
//! API and the `.vscode/settings.json` entries that point luau-lsp at them.
use vstd::prelude::*;
use crate::json::{assoc_get, parse_json, sorted_insert, Json, JsonMap, JsonV};
use crate::text::{chars_of, is_space, same_str, space, string_of, trim, trim_chars};

verus! {

/// The Luau definitions of what hook scripts can call.
pub const DEFINITIONS: &'static str = r#"export type RoFluxFile = {
	path: string,
	name: string,
	stem: string,
	folder: string,
	extension: string,
	source: string,
	text: string,
	className: string,
}

export type RoFluxDeclaration = { [any]: any }

export type RoFluxResult = string | RoFluxDeclaration | { RoFluxDeclaration } | nil

export type RoFluxListener = (file: RoFluxFile) -> RoFluxResult

export type RoFluxNode = {
	id: string,
	name: string,
	className: string,
	ownership: "managed" | "passthrough" | "reference",
	properties: { [string]: any },
	attributes: { [string]: any },
	tags: { string },
	children: { RoFluxNode },
	filePaths: { string },
}

export type RoFluxCompile = {
	initial: boolean,
	instances: number,
	scripts: number,
	files: number,
	added: number,
	updated: number,
	removed: number,
}

export type RoFluxSync = {
	added: number,
	updated: number,
	removed: number,
	summary: string,
	lines: { string },
	clients: number,
}

export type RoFluxStat = { size: number, modified: number, isFile: boolean, isDirectory: boolean }

export type RoFluxExec = { ok: boolean, code: number, stdout: string, stderr: string }

export type RoFluxProject = { name: string, id: string, root: string, manifest: string }

declare roflux: {
	on: (event: string, callback: (...any) -> ...any) -> (),
	onRead: (callback: RoFluxListener) -> (),
	onTransfer: (callback: RoFluxListener) -> (),
	onAdded: (callback: (file: RoFluxFile) -> ()) -> (),
	onRemoved: (callback: (file: RoFluxFile) -> ()) -> (),
	onChanged: (callback: (file: RoFluxFile) -> ()) -> (),
	onCompile: (callback: (info: RoFluxCompile) -> ()) -> (),
	onSync: (callback: (info: RoFluxSync) -> ()) -> (),
	onTree: (callback: (root: RoFluxNode) -> RoFluxNode?) -> (),
	transpile: (extension: string, callback: RoFluxListener) -> (),
	defer: (callback: () -> ()) -> (),

	log: (...any) -> (),
	warn: (...any) -> (),
	error: (...any) -> (),
	inspect: (value: any) -> string,

	root: () -> string,
	read: (path: string) -> string?,
	exists: (path: string) -> boolean,
	isDirectory: (path: string) -> boolean,
	list: (path: string) -> { string },
	walk: (path: string) -> { string },

	fs: {
		root: () -> string,
		read: (path: string) -> string?,
		write: (path: string, text: string) -> boolean,
		append: (path: string, text: string) -> (),
		remove: (path: string) -> boolean,
		mkdir: (path: string) -> (),
		exists: (path: string) -> boolean,
		isFile: (path: string) -> boolean,
		isDirectory: (path: string) -> boolean,
		list: (path: string) -> { string },
		walk: (path: string) -> { string },
		glob: (pattern: string) -> { string },
		stat: (path: string) -> RoFluxStat?,
	},

	json: ((path: string) -> any) & {
		read: (path: string) -> any,
		decode: (text: string) -> any,
		encode: (value: any, pretty: boolean?) -> string,
	},

	toml: {
		read: (path: string) -> any,
		decode: (text: string) -> any,
		encode: (value: any) -> string,
	},

	base64: {
		encode: (text: string) -> string,
		decode: (text: string) -> string,
	},

	hash: (text: string, algorithm: string?) -> string,

	luau: {
		literal: (value: any) -> string,
		module: (value: any) -> string,
		quote: (text: string) -> string,
		isIdentifier: (name: string) -> boolean,
	},

	new: (className: string, fields: { [any]: any }?, children: { [any]: any }?) -> RoFluxDeclaration,

	types: {
		color: (r: number, g: number, b: number) -> { number },
		rgb: (r: number, g: number, b: number) -> { number },
		hex: (value: string) -> { number },
		hsv: (h: number, s: number, v: number) -> { number },
		vector3: (x: number?, y: number?, z: number?) -> { number },
		vector2: (x: number?, y: number?) -> { number },
		udim: (scale: number?, offset: number?) -> { number },
		udim2: (xScale: number?, xOffset: number?, yScale: number?, yOffset: number?) -> { number },
		fromScale: (x: number?, y: number?) -> { number },
		fromOffset: (x: number?, y: number?) -> { number },
		cframe: (x: number?, y: number?, z: number?, ...number) -> { number },
		rect: (minX: number?, minY: number?, maxX: number?, maxY: number?) -> { number },
		range: (min: number, max: number?) -> { number },
		numberSequence: (...any) -> any,
		colorSequence: (...any) -> any,
		font: (family: string, weight: string?, style: string?) -> { family: string, weight: string?, style: string? },
		typed: (name: string, value: any) -> { [string]: any },
	},

	text: {
		trim: (value: string) -> string,
		trimStart: (value: string) -> string,
		trimEnd: (value: string) -> string,
		startsWith: (value: string, prefix: string) -> boolean,
		endsWith: (value: string, suffix: string) -> boolean,
		replace: (value: string, find: string, with: string) -> string,
		split: (value: string, separator: string?) -> { string },
		lines: (value: string) -> { string },
		indent: (value: string, prefix: string?) -> string,
		words: (value: string) -> { string },
		pascal: (value: string) -> string,
		camel: (value: string) -> string,
		snake: (value: string) -> string,
		kebab: (value: string) -> string,
		title: (value: string) -> string,
		padStart: (value: string, width: number, fill: string?) -> string,
		padEnd: (value: string, width: number, fill: string?) -> string,
	},

	path: {
		normalize: (value: string) -> string,
		join: (...string) -> string,
		dirname: (value: string) -> string,
		basename: (value: string) -> string,
		extension: (value: string) -> string,
		stem: (value: string) -> string,
		withExtension: (value: string, extension: string) -> string,
	},

	tree: {
		node: (name: string, declaration: (string | RoFluxDeclaration)?) -> RoFluxNode,
		child: (node: RoFluxNode, name: string) -> RoFluxNode?,
		find: (root: RoFluxNode, path: string) -> RoFluxNode?,
		each: (root: RoFluxNode, visit: (node: RoFluxNode, path: string) -> ()) -> (),
		add: (parent: RoFluxNode, node: RoFluxNode) -> RoFluxNode,
		remove: (root: RoFluxNode, path: string) -> RoFluxNode?,
		ensure: (root: RoFluxNode, path: string) -> RoFluxNode,
	},

	env: (name: string) -> string?,
	platform: () -> string,
	version: () -> string,
	project: () -> RoFluxProject,
	config: (key: string?) -> any,
	exec: (program: string, args: { string }?, options: { cwd: string? }?) -> RoFluxExec,

	cache: {
		get: (key: string) -> any,
		set: (key: string, value: any) -> (),
		has: (key: string) -> boolean,
		delete: (key: string) -> boolean,
		clear: () -> (),
		keys: () -> { string },
	},
}
"#;

/// Where a lexer stands in a settings file: in plain text, in a string
/// (just after a backslash or not), in a line comment, on the `*` that
/// opens a block comment, or in a block comment after the given character.
pub enum Lex {
    Plain,
    Quoted(bool),
    Line,
    Opening,
    Block(char),
}

/// One step of the lexer on `c`, with `next` the character after it: the
/// state after it, and the character kept with whether it is quoted.
pub open spec fn lex_step(st: Lex, c: char, next: Option<char>) -> (Lex, Option<(char, bool)>) {
    match st {
        Lex::Quoted(escaped) => (
            if escaped {
                Lex::Quoted(false)
            } else if c == '\\' {
                Lex::Quoted(true)
            } else if c == '"' {
                Lex::Plain
            } else {
                Lex::Quoted(false)
            },
            Some((c, true)),
        ),
        Lex::Line => if c == '\n' {
            (Lex::Plain, Some(('\n', false)))
        } else {
            (Lex::Line, None)
        },
        Lex::Opening => (Lex::Block('\0'), None),
        Lex::Block(p) => if p == '*' && c == '/' {
            (Lex::Plain, None)
        } else {
            (Lex::Block(c), None)
        },
        Lex::Plain => if c == '"' {
            (Lex::Quoted(false), Some((c, true)))
        } else if c == '/' && next == Some('/') {
            (Lex::Line, None)
        } else if c == '/' && next == Some('*') {
            (Lex::Opening, None)
        } else {
            (Lex::Plain, Some((c, false)))
        },
    }
}

/// The lexer's state after the first `n` characters of `s`, and the
/// characters it kept: comments go, a line comment leaving its newline.
pub open spec fn lexed(s: Seq<char>, n: nat) -> (Lex, Seq<(char, bool)>)
    decreases n,
{
    if n == 0 || n > s.len() {
        (Lex::Plain, Seq::empty())
    } else {
        let (st, out) = lexed(s, (n - 1) as nat);
        let next = if n < s.len() {
            Some(s[n as int])
        } else {
            None
        };
        let (st2, kept) = lex_step(st, s[n - 1], next);
        (st2, match kept {
            Some(x) => out.push(x),
            None => out,
        })
    }
}

/// Whether the first kept character from `j` on that is quoted or not
/// white space closes an object or array.
pub open spec fn closes_after(m: Seq<(char, bool)>, j: int) -> bool
    decreases m.len() - j,
{
    if j < 0 || j >= m.len() {
        false
    } else if m[j].1 || !is_space(m[j].0) {
        !m[j].1 && (m[j].0 == '}' || m[j].0 == ']')
    } else {
        closes_after(m, j + 1)
    }
}

/// The first `n` kept characters without the commas that trail the last
/// item of an object or array.
pub open spec fn untrailed(m: Seq<(char, bool)>, n: nat) -> Seq<char>
    decreases n,
{
    if n == 0 || n > m.len() {
        Seq::empty()
    } else {
        let rest = untrailed(m, (n - 1) as nat);
        let (c, q) = m[n - 1];
        if !q && c == ',' && closes_after(m, n as int) {
            rest
        } else {
            rest.push(c)
        }
    }
}

/// A settings file as JSON: comments and trailing commas taken out, text
/// inside strings left alone.
pub open spec fn relaxed_spec(raw: Seq<char>) -> Seq<char> {
    let m = lexed(raw, raw.len()).1;
    untrailed(m, m.len())
}

/// Whether `raw` holds no comment: the lexer never meets `//` or `/*`
/// outside a string.
pub open spec fn comment_free(raw: Seq<char>) -> bool {
    forall|n: int|
        0 <= n && n + 1 < raw.len() && (#[trigger] lexed(raw, n as nat)).0 is Plain && raw[n] == '/' ==> raw[n
            + 1] != '/' && raw[n + 1] != '*'
}

/// Whether no comma outside a string trails the last item of an object or
/// array in `raw`.
pub open spec fn trailing_free(raw: Seq<char>) -> bool {
    let m = lexed(raw, raw.len()).1;
    forall|i: int| 0 <= i < m.len() && !(#[trigger] m[i]).1 && m[i].0 == ',' ==> !closes_after(m, i + 1)
}

proof fn lemma_lexed_keeps_all(raw: Seq<char>, n: nat)
    requires
        comment_free(raw),
        n <= raw.len(),
    ensures
        lexed(raw, n).0 is Plain || lexed(raw, n).0 is Quoted,
        lexed(raw, n).1.len() == n,
        forall|i: int| 0 <= i < n ==> (#[trigger] lexed(raw, n).1[i]).0 == raw[i],
    decreases n,
{
    if n > 0 {
        lemma_lexed_keeps_all(raw, (n - 1) as nat);
        let st = lexed(raw, (n - 1) as nat).0;
        if st is Plain && raw[n - 1] == '/' && n < raw.len() {
            assert(lexed(raw, ((n - 1) as int) as nat).0 is Plain);
        }
        let out = lexed(raw, (n - 1) as nat).1;
        assert forall|i: int| 0 <= i < n implies (#[trigger] lexed(raw, n).1[i]).0 == raw[i] by {
            if i < n - 1 {
                assert(lexed(raw, n).1[i] == out[i]);
            }
        }
    }
}

proof fn lemma_untrailed_keeps_all(m: Seq<(char, bool)>, k: nat)
    requires
        k <= m.len(),
        forall|i: int| 0 <= i < m.len() && !(#[trigger] m[i]).1 && m[i].0 == ',' ==> !closes_after(m, i + 1),
    ensures
        untrailed(m, k) == Seq::new(k, |i: int| m[i].0),
    decreases k,
{
    if k > 0 {
        lemma_untrailed_keeps_all(m, (k - 1) as nat);
        assert(untrailed(m, k) =~= Seq::new(k, |i: int| m[i].0));
    }
}

/// Text that is already strict JSON, with no comment and no trailing
/// comma, comes back from `relaxed` unchanged.
pub proof fn law_relaxed_strict(raw: Seq<char>)
    requires
        comment_free(raw),
        trailing_free(raw),
    ensures
        relaxed_spec(raw) == raw,
{
    lemma_lexed_keeps_all(raw, raw.len());
    let m = lexed(raw, raw.len()).1;
    lemma_untrailed_keeps_all(m, m.len());
    assert(Seq::new(m.len(), |i: int| m[i].0) =~= raw);
}

/// Whether the first kept character from `j` on that is quoted or not
/// white space closes an object or array.
fn closing(m: &Vec<(char, bool)>, j: usize) -> (r: bool)
    ensures
        r == closes_after(m@, j as int),
{
    let mut k: usize = j;
    while k < m.len()
        invariant
            j <= k,
            closes_after(m@, j as int) == closes_after(m@, k as int),
        decreases m@.len() - k,
    {
        let (c, q) = m[k];
        if q || !space(c) {
            return !q && (c == '}' || c == ']');
        }
        k = k + 1;
    }
    false
}

/// A settings file as JSON (see `relaxed_spec`).
pub fn relaxed(raw: &str) -> (r: String)
    ensures
        r@ == relaxed_spec(raw@),
{
    let cs = chars_of(raw);
    let mut marked: Vec<(char, bool)> = Vec::new();
    let mut st = Lex::Plain;
    let mut i: usize = 0;
    while i < cs.len()
        invariant
            i <= cs@.len(),
            cs@ == raw@,
            lexed(raw@, i as nat) == (st, marked@),
        decreases cs@.len() - i,
    {
        let c = cs[i];
        let next = if i + 1 < cs.len() {
            Some(cs[i + 1])
        } else {
            None
        };
        let (st2, kept) = match st {
            Lex::Quoted(escaped) => (
                if escaped {
                    Lex::Quoted(false)
                } else if c == '\\' {
                    Lex::Quoted(true)
                } else if c == '"' {
                    Lex::Plain
                } else {
                    Lex::Quoted(false)
                },
                Some((c, true)),
            ),
            Lex::Line => if c == '\n' {
                (Lex::Plain, Some(('\n', false)))
            } else {
                (Lex::Line, None)
            },
            Lex::Opening => (Lex::Block('\0'), None),
            Lex::Block(p) => if p == '*' && c == '/' {
                (Lex::Plain, None)
            } else {
                (Lex::Block(c), None)
            },
            Lex::Plain => if c == '"' {
                (Lex::Quoted(false), Some((c, true)))
            } else if c == '/' && next == Some('/') {
                (Lex::Line, None)
            } else if c == '/' && next == Some('*') {
                (Lex::Opening, None)
            } else {
                (Lex::Plain, Some((c, false)))
            },
        };
        assert((st2, kept) == lex_step(st, c, next));
        if let Some(x) = kept {
            marked.push(x);
        }
        st = st2;
        i = i + 1;
    }
    let mut out: Vec<char> = Vec::new();
    let mut k: usize = 0;
    while k < marked.len()
        invariant
            k <= marked@.len(),
            marked@ == lexed(raw@, raw@.len()).1,
            out@ == untrailed(marked@, k as nat),
        decreases marked@.len() - k,
    {
        let (c, q) = marked[k];
        if !(!q && c == ',' && closing(&marked, k + 1)) {
            out.push(c);
        }
        k = k + 1;
    }
    string_of(out.as_slice())
}

/// What becomes of `.vscode/settings.json`: left alone because it could
/// not be read, left alone because it already holds what it should, or
/// written with these entries.
#[derive(Debug)]
pub enum Settings {
    Unreadable(String),
    Unchanged,
    Write(JsonMap),
}

/// The entries a settings file starts from: none when it is missing or
/// blank, its object when it reads as one once relaxed, nothing otherwise.
pub open spec fn settings_start(existing: Option<Seq<char>>) -> Option<Seq<(Seq<char>, JsonV)>> {
    match existing {
        Some(raw) => if trim(raw).len() == 0 {
            Some(Seq::empty())
        } else {
            match crate::json::object_parsed(relaxed_spec(raw)) {
                Ok(es) => Some(crate::json::raw_entries(es, es.len() as int)),
                Err(_) => None,
            }
        },
        None => Some(Seq::empty()),
    }
}

/// The entries RoFlux puts in the settings: its definitions file among
/// luau-lsp's definition files, the Roblox platform, and the sourcemap
/// switched on without luau-lsp generating it.
pub open spec fn with_settings(m: Seq<(Seq<char>, JsonV)>, definitions: Seq<char>) -> Seq<(Seq<char>, JsonV)> {
    let files = match assoc_get(m, "luau-lsp.types.definitionFiles"@) {
        Some(JsonV::Object(f)) => f,
        _ => Seq::empty(),
    };
    let m1 = sorted_insert(
        m,
        "luau-lsp.types.definitionFiles"@,
        JsonV::Object(sorted_insert(files, "RoFlux"@, JsonV::Text(definitions))),
    );
    let m2 = sorted_insert(m1, "luau-lsp.platform.type"@, JsonV::Text("roblox"@));
    let m3 = sorted_insert(m2, "luau-lsp.sourcemap.enabled"@, JsonV::Bool(true));
    sorted_insert(m3, "luau-lsp.sourcemap.autogenerate"@, JsonV::Bool(false))
}

/// What becomes of a settings file holding `existing` (or missing).
pub open spec fn settings_spec(existing: Option<Seq<char>>, definitions: Seq<char>) -> Option<Option<Seq<(Seq<char>, JsonV)>>> {
    match settings_start(existing) {
        None => None,
        Some(m) => {
            let updated = with_settings(m, definitions);
            Some(
                if crate::json::map_same(updated, m) {
                    None
                } else {
                    Some(updated)
                },
            )
        },
    }
}

/// Setting a project up settles its settings: the entries the first run
/// writes already hold all a second run would put in, so a second run
/// that reads back what the first wrote changes nothing.
pub proof fn law_settings_settle(m: Seq<(Seq<char>, JsonV)>, d: Seq<char>, again: Option<Seq<char>>)
    requires
        crate::json::sorted_keys(m),
        assoc_get(m, "luau-lsp.types.definitionFiles"@) matches Some(JsonV::Object(f)) ==> crate::json::sorted_keys(f),
    ensures
        with_settings(with_settings(m, d), d) == with_settings(m, d),
        settings_start(again) == Some(with_settings(m, d)) ==> settings_spec(again, d) == Some(
            None::<Seq<(Seq<char>, JsonV)>>,
        ),
{
    reveal_strlit("luau-lsp.types.definitionFiles");
    reveal_strlit("luau-lsp.platform.type");
    reveal_strlit("luau-lsp.sourcemap.enabled");
    reveal_strlit("luau-lsp.sourcemap.autogenerate");
    reveal_strlit("RoFlux");
    reveal_strlit("roblox");
    let k1 = "luau-lsp.types.definitionFiles"@;
    let k2 = "luau-lsp.platform.type"@;
    let k3 = "luau-lsp.sourcemap.enabled"@;
    let k4 = "luau-lsp.sourcemap.autogenerate"@;
    assert(k1 != k2 && k1 != k3 && k1 != k4 && k2 != k3 && k2 != k4 && k3 != k4) by {
        assert(k1.len() != k2.len());
        assert(k1.len() != k3.len());
        assert(k1.len() != k4.len());
        assert(k2.len() != k3.len() || k2[9] != k3[9]);
        assert(k2.len() != k4.len());
        assert(k3.len() != k4.len());
    }
    let files = match assoc_get(m, k1) {
        Some(JsonV::Object(f)) => f,
        _ => Seq::empty(),
    };
    let v1 = JsonV::Text(d);
    let f1 = sorted_insert(files, "RoFlux"@, v1);
    crate::json::law_insert_then_get(files, "RoFlux"@, v1, "RoFlux"@);
    let o1 = JsonV::Object(f1);
    let v2 = JsonV::Text("roblox"@);
    let v3 = JsonV::Bool(true);
    let v4 = JsonV::Bool(false);
    let m1 = sorted_insert(m, k1, o1);
    crate::json::law_insert_then_get(m, k1, o1, k1);
    let m2 = sorted_insert(m1, k2, v2);
    crate::json::law_insert_then_get(m1, k2, v2, k1);
    let m3 = sorted_insert(m2, k3, v3);
    crate::json::law_insert_then_get(m2, k3, v3, k1);
    crate::json::law_insert_then_get(m2, k3, v3, k2);
    let w = sorted_insert(m3, k4, v4);
    crate::json::law_insert_then_get(m3, k4, v4, k1);
    crate::json::law_insert_then_get(m3, k4, v4, k2);
    crate::json::law_insert_then_get(m3, k4, v4, k3);
    crate::json::law_insert_then_get(m3, k4, v4, k4);
    assert(w == with_settings(m, d));
    assert(assoc_get(w, k1) == Some(o1));
    crate::json::lemma_sorted_insert_present(f1, "RoFlux"@, v1);
    crate::json::lemma_sorted_insert_present(w, k1, o1);
    crate::json::lemma_sorted_insert_present(w, k2, v2);
    crate::json::lemma_sorted_insert_present(w, k3, v3);
    crate::json::lemma_sorted_insert_present(w, k4, v4);
    crate::json::lemma_entries_same_refl(w, w.len() as int);
}

/// The characters of a text that may be missing.
pub open spec fn opt_text(o: Option<&str>) -> Option<Seq<char>> {
    match o {
        Some(s) => Some(s@),
        None => None,
    }
}

/// What becomes of `.vscode/settings.json` holding `existing`, or missing,
/// pointing luau-lsp at the definitions file named `definitions`.
pub fn settings_for(existing: Option<&str>, definitions: &str) -> (r: Settings)
    ensures
        match r {
            Settings::Unreadable(e) => settings_spec(opt_text(existing), definitions@) is None && (existing matches Some(
                raw,
            ) && crate::json::object_parsed(relaxed_spec(raw@)) == Err::<Seq<(Seq<char>, crate::json::RawJsonV)>, Seq<char>>(e@)),
            Settings::Unchanged => settings_spec(opt_text(existing), definitions@) == Some(
                None::<Seq<(Seq<char>, JsonV)>>,
            ),
            Settings::Write(m) => settings_spec(opt_text(existing), definitions@) == Some(
                Some(m@),
            ),
        },
{
    let mut settings = match existing {
        Some(raw) => {
            let cs = chars_of(raw);
            if trim_chars(cs.as_slice()).len() == 0 {
                JsonMap::new()
            } else {
                let text = relaxed(raw);
                match crate::json::parse_object(text.as_str()) {
                    Ok(m) => m,
                    Err(e) => return Settings::Unreadable(e),
                }
            }
        },
        None => JsonMap::new(),
    };
    let before = settings.clone();
    let mut files = match settings.get("luau-lsp.types.definitionFiles") {
        Some(Json::Object(f)) => f.clone(),
        _ => JsonMap::new(),
    };
    files.insert(String::from_str("RoFlux"), Json::Text(String::from_str(definitions)));
    settings.insert(String::from_str("luau-lsp.types.definitionFiles"), Json::Object(files));
    settings.insert(String::from_str("luau-lsp.platform.type"), Json::Text(String::from_str("roblox")));
    settings.insert(String::from_str("luau-lsp.sourcemap.enabled"), Json::Bool(true));
    settings.insert(String::from_str("luau-lsp.sourcemap.autogenerate"), Json::Bool(false));
    if crate::json::map_eq(&settings, &before) {
        Settings::Unchanged
    } else {
        Settings::Write(settings)
    }
}

/// What setting a project up for the editor takes: whether the
/// definitions file has to be written, and what becomes of the settings.
#[derive(Debug)]
pub struct Generated {
    pub write_definitions: bool,
    pub settings: Settings,
}

/// The name of the definitions file, next to the manifest.
pub open spec fn definitions_file() -> Seq<char> {
    "types.d.luau"@
}

/// What setting a project up for the editor takes, given what its
/// definitions file holds now (empty when missing) and its settings file.
pub fn generate(current_definitions: &str, current_settings: Option<&str>) -> (r: Generated)
    ensures
        r.write_definitions == (current_definitions@ != DEFINITIONS@),
        match r.settings {
            Settings::Unreadable(e) => settings_spec(opt_text(current_settings), definitions_file()) is None && (
            current_settings matches Some(raw) && crate::json::object_parsed(relaxed_spec(raw@)) == Err::<
                Seq<(Seq<char>, crate::json::RawJsonV)>,
                Seq<char>,
            >(e@)),
            Settings::Unchanged => settings_spec(opt_text(current_settings), definitions_file())
                == Some(None::<Seq<(Seq<char>, JsonV)>>),
            Settings::Write(m) => settings_spec(opt_text(current_settings), definitions_file())
                == Some(Some(m@)),
        },
{
    Generated {
        write_definitions: !same_str(current_definitions, DEFINITIONS),
        settings: settings_for(current_settings, "types.d.luau"),
    }
}

} // verus!
