//! Writes a JSON value as a Luau literal: `nil`, booleans, numbers, quoted
//! strings and tables, one entry per line, indented with tabs.
use vstd::prelude::*;
use crate::json::{
    entries_size, items_size, json_size, json_views, lemma_entry_smaller, lemma_item_smaller, Json,
    JsonV,
};
use crate::text::{chars_of, decimal, decimal_of, push_char, push_str, same_str};

verus! {

broadcast use vstd::string::group_string_axioms;

/// The words that Luau reserves.
pub open spec fn is_keyword(s: Seq<char>) -> bool {
    s == "and"@ || s == "break"@ || s == "do"@ || s == "else"@ || s == "elseif"@ || s == "end"@
        || s == "false"@ || s == "for"@ || s == "function"@ || s == "if"@ || s == "in"@ || s
        == "local"@ || s == "nil"@ || s == "not"@ || s == "or"@ || s == "repeat"@ || s
        == "return"@ || s == "then"@ || s == "true"@ || s == "until"@ || s == "while"@ || s
        == "continue"@ || s == "export"@ || s == "type"@ || s == "const"@
}

pub open spec fn is_ascii_alpha(c: char) -> bool {
    ('a' <= c && c <= 'z') || ('A' <= c && c <= 'Z')
}

pub open spec fn is_ascii_alnum(c: char) -> bool {
    is_ascii_alpha(c) || ('0' <= c && c <= '9')
}

/// A name that can stand bare as a table key.
pub open spec fn identifier_spec(name: Seq<char>) -> bool {
    &&& name.len() > 0
    &&& !is_keyword(name)
    &&& (is_ascii_alpha(name[0]) || name[0] == '_')
    &&& forall|i: int| 1 <= i < name.len() ==> is_ascii_alnum(#[trigger] name[i]) || name[i] == '_'
}

fn keyword(name: &str) -> (r: bool)
    ensures
        r == is_keyword(name@),
{
    same_str(name, "and") || same_str(name, "break") || same_str(name, "do") || same_str(
        name,
        "else",
    ) || same_str(name, "elseif") || same_str(name, "end") || same_str(name, "false")
        || same_str(name, "for") || same_str(name, "function") || same_str(name, "if")
        || same_str(name, "in") || same_str(name, "local") || same_str(name, "nil") || same_str(
        name,
        "not",
    ) || same_str(name, "or") || same_str(name, "repeat") || same_str(name, "return")
        || same_str(name, "then") || same_str(name, "true") || same_str(name, "until")
        || same_str(name, "while") || same_str(name, "continue") || same_str(name, "export")
        || same_str(name, "type") || same_str(name, "const")
}

/// Whether `name` can stand bare as a table key: a letter or `_`, then
/// letters, digits and `_`, and not a Luau keyword.
pub fn identifier(name: &str) -> (r: bool)
    ensures
        r == identifier_spec(name@),
{
    let cs = chars_of(name);
    if cs.len() == 0 || keyword(name) {
        return false;
    }
    let head = cs[0];
    if !(('a' <= head && head <= 'z') || ('A' <= head && head <= 'Z')) && head != '_' {
        return false;
    }
    let mut i: usize = 1;
    while i < cs.len()
        invariant
            1 <= i <= cs@.len(),
            cs@ == name@,
            forall|k: int| 1 <= k < i ==> is_ascii_alnum(#[trigger] cs@[k]) || cs@[k] == '_',
        decreases cs@.len() - i,
    {
        let c = cs[i];
        if !(('a' <= c && c <= 'z') || ('A' <= c && c <= 'Z') || ('0' <= c && c <= '9'))
            && c != '_' {
            assert(name@[i as int] == cs@[i as int]);
            assert(!(is_ascii_alnum(name@[i as int]) || name@[i as int] == '_'));
            return false;
        }
        i = i + 1;
    }
    true
}

/// How one character is written inside a quoted string.
pub open spec fn escape(c: char) -> Seq<char> {
    if c == '"' {
        seq!['\\', '"']
    } else if c == '\\' {
        seq!['\\', '\\']
    } else if c == '\n' {
        seq!['\\', 'n']
    } else if c == '\r' {
        seq!['\\', 'r']
    } else if c == '\t' {
        seq!['\\', 't']
    } else if (c as u32) < 0x20 {
        seq!['\\'] + decimal(c as nat)
    } else {
        seq![c]
    }
}

/// Every character of `s` written as `escape` writes it.
pub open spec fn escaped(s: Seq<char>) -> Seq<char>
    decreases s.len(),
{
    if s.len() == 0 {
        Seq::empty()
    } else {
        escaped(s.drop_last()) + escape(s.last())
    }
}

/// `text` as a double-quoted Luau string.
pub open spec fn quote_spec(text: Seq<char>) -> Seq<char> {
    seq!['"'] + escaped(text) + seq!['"']
}

/// Whether a character is an ASCII digit.
pub open spec fn is_digit(c: char) -> bool {
    '0' <= c && c <= '9'
}

/// The value of an ASCII digit.
pub open spec fn digit_value(c: char) -> int {
    c as int - '0' as int
}

/// The value of the digits that start `s`, at most three of them, and how
/// many there are.
pub open spec fn leading_number(s: Seq<char>) -> (int, int) {
    if s.len() >= 1 && is_digit(s[0]) {
        if s.len() >= 2 && is_digit(s[1]) {
            if s.len() >= 3 && is_digit(s[2]) {
                (digit_value(s[0]) * 100 + digit_value(s[1]) * 10 + digit_value(s[2]), 3)
            } else {
                (digit_value(s[0]) * 10 + digit_value(s[1]), 2)
            }
        } else {
            (digit_value(s[0]), 1)
        }
    } else {
        (0, 0)
    }
}

/// The text the body of a Luau double-quoted string stands for, as Luau
/// reads the escapes `escape` writes: `\n`, `\r`, `\t`, a backslash before
/// any other character standing for that character, and a backslash
/// before up to three digits for the character with that number.
pub open spec fn unescaped(s: Seq<char>) -> Seq<char>
    decreases s.len(),
{
    if s.len() == 0 {
        Seq::empty()
    } else if s[0] == '\\' && s.len() >= 2 {
        let c = s[1];
        if c == 'n' {
            seq!['\n'] + unescaped(s.skip(2))
        } else if c == 'r' {
            seq!['\r'] + unescaped(s.skip(2))
        } else if c == 't' {
            seq!['\t'] + unescaped(s.skip(2))
        } else if is_digit(c) {
            let (v, k) = leading_number(s.skip(1));
            seq![(v as u32) as char] + unescaped(s.skip(1 + k))
        } else {
            seq![c] + unescaped(s.skip(2))
        }
    } else {
        seq![s[0]] + unescaped(s.skip(1))
    }
}

/// Whether a control character that `quote` writes as a number is
/// followed by a digit, which Luau would read as part of that number.
pub open spec fn digit_after_number(text: Seq<char>) -> bool {
    exists|i: int|
        0 <= i < text.len() - 1 && (#[trigger] text[i] as u32) < 0x20 && text[i] != '\n' && text[i] != '\r'
            && text[i] != '\t' && is_digit(text[i + 1])
}

proof fn lemma_escaped_front(s: Seq<char>)
    requires
        s.len() > 0,
    ensures
        escaped(s) == escape(s[0]) + escaped(s.drop_first()),
    decreases s.len(),
{
    if s.len() == 1 {
        assert(s.drop_last() =~= Seq::<char>::empty());
        assert(s.drop_first() =~= Seq::<char>::empty());
        assert(escaped(Seq::<char>::empty()) == Seq::<char>::empty());
        assert(s.last() == s[0]);
        assert(escaped(s) =~= escape(s[0]));
    } else {
        lemma_escaped_front(s.drop_last());
        assert(s.drop_last().drop_first() =~= s.drop_first().drop_last());
        assert(s.drop_last()[0] == s[0]);
        assert(s.drop_first().last() == s.last());
        assert(escaped(s) =~= escape(s[0]) + escaped(s.drop_first()));
    }
}

proof fn lemma_small_decimal(n: nat)
    requires
        n < 32,
    ensures
        1 <= decimal(n).len() <= 2,
        forall|i: int| 0 <= i < decimal(n).len() ==> is_digit(#[trigger] decimal(n)[i]),
        decimal(n).len() == 1 ==> digit_value(decimal(n)[0]) == n,
        decimal(n).len() == 2 ==> digit_value(decimal(n)[0]) * 10 + digit_value(decimal(n)[1]) == n,
{
    if n >= 10 {
        assert(decimal(n / 10) == seq![crate::text::digit(n / 10)]);
    }
}

proof fn lemma_unescape_escaped(text: Seq<char>)
    requires
        !digit_after_number(text),
    ensures
        unescaped(escaped(text)) == text,
    decreases text.len(),
{
    if text.len() > 0 {
        let c = text[0];
        let tail = text.drop_first();
        assert(!digit_after_number(tail)) by {
            if digit_after_number(tail) {
                let i = choose|i: int|
                    0 <= i < tail.len() - 1 && (#[trigger] tail[i] as u32) < 0x20 && tail[i] != '\n' && tail[i]
                        != '\r' && tail[i] != '\t' && is_digit(tail[i + 1]);
                assert(text[i + 1] == tail[i]);
            }
        }
        lemma_unescape_escaped(tail);
        lemma_escaped_front(text);
        let rest = escaped(tail);
        let s = escape(c) + rest;
        if tail.len() > 0 {
            lemma_escaped_front(tail);
        }
        if c == '"' || c == '\\' || c == '\n' || c == '\r' || c == '\t' {
            assert(s.skip(2) =~= rest);
        } else if (c as u32) < 0x20 {
            let u = c as u32;
            vstd::utf8::char_u32_cast(c, u);
            assert(c as nat == u as nat);
            let n = u as nat;
            lemma_small_decimal(n);
            let d = decimal(n);
            assert(!(tail.len() > 0 && is_digit(tail[0]))) by {
                if tail.len() > 0 && is_digit(tail[0]) {
                    assert(text[0] as u32 == c as u32);
                    assert(text[1] == tail[0]);
                }
            }
            assert(tail.len() > 0 ==> !is_digit(rest[0]));
            assert(s.skip(1) =~= d + rest);
            assert(leading_number(d + rest) == (n as int, d.len() as int));
            assert(s.skip(1 + d.len() as int) =~= rest);
            assert((n as int) as u32 == u);
            assert(u as char == c);
        } else {
            assert(s.skip(1) =~= rest);
        }
        assert(unescaped(s) =~= seq![c] + tail);
        assert(seq![c] + tail =~= text);
    }
}

/// Luau reads the literal `quote` writes back as the text it was given,
/// wherever no control character that it writes as a number is followed
/// by a digit.
pub proof fn law_quote_reads_back(text: Seq<char>)
    requires
        !digit_after_number(text),
    ensures
        quote_spec(text).len() >= 2,
        quote_spec(text)[0] == '"',
        quote_spec(text).last() == '"',
        unescaped(quote_spec(text).subrange(1, quote_spec(text).len() - 1)) == text,
{
    lemma_unescape_escaped(text);
    let q = quote_spec(text);
    assert(q.subrange(1, q.len() - 1) =~= escaped(text));
}

fn push_escaped(out: &mut String, c: char)
    ensures
        final(out)@ == old(out)@ + escape(c),
{
    if c == '"' {
        push_char(out, '\\');
        push_char(out, '"');
    } else if c == '\\' {
        push_char(out, '\\');
        push_char(out, '\\');
    } else if c == '\n' {
        push_char(out, '\\');
        push_char(out, 'n');
    } else if c == '\r' {
        push_char(out, '\\');
        push_char(out, 'r');
    } else if c == '\t' {
        push_char(out, '\\');
        push_char(out, 't');
    } else if (c as u32) < 0x20 {
        push_char(out, '\\');
        let code: u32 = c as u32;
        let digits = decimal_of(code as usize);
        push_str(out, digits.as_str());
        assert(final(out)@ =~= old(out)@ + escape(c)) by {
            assert(decimal(c as nat) == decimal(code as usize as nat));
        }
        return;
    } else {
        push_char(out, c);
    }
    assert(final(out)@ =~= old(out)@ + escape(c));
}

/// `text` between double quotes, with `"`, `\`, newlines, carriage returns
/// and tabs escaped, and other control characters written as `\` and their
/// decimal code.
pub fn quote(text: &str) -> (r: String)
    ensures
        r@ == quote_spec(text@),
{
    let cs = chars_of(text);
    let mut out = String::new();
    push_char(&mut out, '"');
    let mut i: usize = 0;
    while i < cs.len()
        invariant
            i <= cs@.len(),
            out@ == seq!['"'] + escaped(cs@.take(i as int)),
        decreases cs@.len() - i,
    {
        assert(cs@.take(i + 1).drop_last() =~= cs@.take(i as int));
        push_escaped(&mut out, cs[i]);
        assert(out@ =~= seq!['"'] + escaped(cs@.take(i + 1)));
        i = i + 1;
    }
    assert(cs@.take(cs@.len() as int) =~= cs@);
    push_char(&mut out, '"');
    out
}

/// `n` tabs.
pub open spec fn tabs(n: nat) -> Seq<char> {
    Seq::new(n, |i: int| '\t')
}

/// The key of an entry as it stands in a table: bare when it is an
/// identifier, otherwise quoted in brackets.
pub open spec fn slot(key: Seq<char>) -> Seq<char> {
    if identifier_spec(key) {
        key
    } else {
        seq!['['] + quote_spec(key) + seq![']']
    }
}

/// The words Luau reserves, which can never stand bare as a table key.
pub open spec fn reserved_words() -> Seq<Seq<char>> {
    seq![
        "and"@, "break"@, "do"@, "else"@, "elseif"@, "end"@, "false"@, "for"@, "function"@, "if"@,
        "in"@, "local"@, "nil"@, "not"@, "or"@, "repeat"@, "return"@, "then"@, "true"@, "until"@,
        "while"@, "continue"@, "export"@, "type"@, "const"@,
    ]
}

/// A reserved word is never written bare as a table key: its field is
/// written `["word"] = ...`.
pub proof fn law_reserved_words_bracketed(i: int)
    requires
        0 <= i < 25,
    ensures
        reserved_words().len() == 25,
        !identifier_spec(reserved_words()[i]),
        slot(reserved_words()[i]) == seq!['['] + quote_spec(reserved_words()[i]) + seq![']'],
{
    let w = reserved_words();
    assert(w.len() == 25);
    assert(w[0] == "and"@);
    assert(w[1] == "break"@);
    assert(w[2] == "do"@);
    assert(w[3] == "else"@);
    assert(w[4] == "elseif"@);
    assert(w[5] == "end"@);
    assert(w[6] == "false"@);
    assert(w[7] == "for"@);
    assert(w[8] == "function"@);
    assert(w[9] == "if"@);
    assert(w[10] == "in"@);
    assert(w[11] == "local"@);
    assert(w[12] == "nil"@);
    assert(w[13] == "not"@);
    assert(w[14] == "or"@);
    assert(w[15] == "repeat"@);
    assert(w[16] == "return"@);
    assert(w[17] == "then"@);
    assert(w[18] == "true"@);
    assert(w[19] == "until"@);
    assert(w[20] == "while"@);
    assert(w[21] == "continue"@);
    assert(w[22] == "export"@);
    assert(w[23] == "type"@);
    assert(w[24] == "const"@);
}

/// `value` written as a Luau literal whose closing brace is indented by
/// `depth` tabs.
pub open spec fn written(value: JsonV, depth: nat) -> Seq<char>
    decreases value, 0nat,
{
    match value {
        JsonV::Null => "nil"@,
        JsonV::Bool(b) => if b {
            "true"@
        } else {
            "false"@
        },
        JsonV::Number(n) => n,
        JsonV::Text(t) => quote_spec(t),
        JsonV::Array(items) => if items.len() == 0 {
            "{}"@
        } else {
            seq!['{', '\n'] + item_lines(items, depth) + seq!['\n'] + tabs(depth) + seq!['}']
        },
        JsonV::Object(fields) => if fields.len() == 0 {
            "{}"@
        } else {
            seq!['{', '\n'] + field_lines(fields, depth) + seq!['\n'] + tabs(depth) + seq!['}']
        },
    }
}

/// One line per item, joined with newlines.
pub open spec fn item_lines(items: Seq<JsonV>, depth: nat) -> Seq<char>
    decreases items, 1nat,
{
    if items.len() == 0 {
        Seq::empty()
    } else {
        let line = tabs(depth + 1) + written(items.last(), depth + 1) + seq![','];
        if items.len() == 1 {
            line
        } else {
            item_lines(items.drop_last(), depth) + seq!['\n'] + line
        }
    }
}

/// One `key = value,` line per field, joined with newlines.
pub open spec fn field_lines(fields: Seq<(Seq<char>, JsonV)>, depth: nat) -> Seq<char>
    decreases fields, 1nat,
{
    if fields.len() == 0 {
        Seq::empty()
    } else {
        let line = tabs(depth + 1) + slot(fields.last().0) + " = "@ + written(
            fields.last().1,
            depth + 1,
        ) + seq![','];
        if fields.len() == 1 {
            line
        } else {
            field_lines(fields.drop_last(), depth) + seq!['\n'] + line
        }
    }
}

#[verifier::spinoff_prover]
#[verifier::rlimit(30)]
fn write(value: &Json, close: &String, ghost_depth: Ghost<nat>) -> (r: String)
    requires
        close@ == tabs(ghost_depth@),
    ensures
        r@ == written(value@, ghost_depth@),
    decreases json_size(value@),
{
    let ghost depth = ghost_depth@;
    proof {
        reveal_strlit("nil");
        reveal_strlit("true");
        reveal_strlit("false");
        reveal_strlit("{}");
        reveal_strlit(" = ");
    }
    match value {
        Json::Null => String::from_str("nil"),
        Json::Bool(b) => if *b {
            String::from_str("true")
        } else {
            String::from_str("false")
        },
        Json::Number(n) => n.clone(),
        Json::Text(t) => quote(t.as_str()),
        Json::Array(items) => {
            assert(value@->Array_0 =~= json_views(items@));
            assert(value@ == JsonV::Array(json_views(items@)));
            if items.len() == 0 {
                return String::from_str("{}");
            }
            let mut pad = close.clone();
            push_char(&mut pad, '\t');
            assert(pad@ =~= tabs(depth + 1));
            let ghost vs = json_views(items@);
            let mut out = String::new();
            push_char(&mut out, '{');
            push_char(&mut out, '\n');
            let mut i: usize = 0;
            while i < items.len()
                invariant
                    i <= items@.len(),
                    vs == json_views(items@),
                    value@ == JsonV::Array(vs),
                    pad@ == tabs(depth + 1),
                    close@ == tabs(depth),
                    json_size(value@) == 1 + items_size(vs),
                    out@ == seq!['{', '\n'] + item_lines(vs.take(i as int), depth),
                decreases items@.len() - i,
            {
                proof {
                    lemma_item_smaller(vs, i as int);
                }
                let inner = write(&items[i], &pad, Ghost(depth + 1));
                let ghost prev = out@;
                if i > 0 {
                    push_char(&mut out, '\n');
                }
                push_str(&mut out, pad.as_str());
                push_str(&mut out, inner.as_str());
                push_char(&mut out, ',');
                proof {
                    let t = vs.take(i + 1);
                    assert(t.drop_last() =~= vs.take(i as int));
                    assert(t.last() == vs[i as int]);
                    if i == 0 {
                        assert(vs.take(0).len() == 0);
                    }
                    assert(out@ =~= seq!['{', '\n'] + item_lines(t, depth));
                }
                i = i + 1;
            }
            assert(vs.take(vs.len() as int) =~= vs);
            push_char(&mut out, '\n');
            push_str(&mut out, close.as_str());
            push_char(&mut out, '}');
            assert(out@ =~= written(value@, depth));
            out
        },
        Json::Object(fields) => {
            assert(value@ == JsonV::Object(fields@));
            if fields.len() == 0 {
                return String::from_str("{}");
            }
            let mut pad = close.clone();
            push_char(&mut pad, '\t');
            assert(pad@ =~= tabs(depth + 1));
            let ghost fs = fields@;
            let mut out = String::new();
            push_char(&mut out, '{');
            push_char(&mut out, '\n');
            let mut i: usize = 0;
            while i < fields.len()
                invariant
                    i <= fs.len(),
                    fs == fields@,
                    value@ == JsonV::Object(fs),
                    pad@ == tabs(depth + 1),
                    close@ == tabs(depth),
                    json_size(value@) == 1 + entries_size(fs),
                    out@ == seq!['{', '\n'] + field_lines(fs.take(i as int), depth),
                decreases fs.len() - i,
            {
                proof {
                    lemma_entry_smaller(fs, i as int);
                }
                let key = fields.key_at(i);
                let inner = write(fields.value_at(i), &pad, Ghost(depth + 1));
                let ghost prev = out@;
                if i > 0 {
                    push_char(&mut out, '\n');
                }
                push_str(&mut out, pad.as_str());
                if identifier(key.as_str()) {
                    push_str(&mut out, key.as_str());
                } else {
                    push_char(&mut out, '[');
                    let q = quote(key.as_str());
                    push_str(&mut out, q.as_str());
                    push_char(&mut out, ']');
                }
                push_str(&mut out, " = ");
                push_str(&mut out, inner.as_str());
                push_char(&mut out, ',');
                proof {
                    let t = fs.take(i + 1);
                    assert(t.drop_last() =~= fs.take(i as int));
                    assert(t.last() == fs[i as int]);
                    if i == 0 {
                        assert(fs.take(0).len() == 0);
                    }
                    assert(out@ =~= seq!['{', '\n'] + field_lines(t, depth));
                }
                i = i + 1;
            }
            assert(fs.take(fs.len() as int) =~= fs);
            push_char(&mut out, '\n');
            push_str(&mut out, close.as_str());
            push_char(&mut out, '}');
            assert(out@ =~= written(value@, depth));
            out
        },
    }
}

/// `value` as a Luau literal: `nil`, `true`, `false`, numbers as JSON
/// writes them, quoted strings, and tables with one entry per line, keys
/// bare when they are identifiers and quoted in brackets otherwise.
pub fn emit(value: &Json) -> (r: String)
    ensures
        r@ == written(value@, 0),
{
    let close = String::new();
    assert(close@ =~= tabs(0));
    write(value, &close, Ghost(0))
}

/// A Luau module that returns `value`.
pub fn module(value: &Json) -> (r: String)
    ensures
        r@ == "return "@ + written(value@, 0) + seq!['\n'],
{
    let mut out = String::from_str("return ");
    let body = emit(value);
    push_str(&mut out, body.as_str());
    push_char(&mut out, '\n');
    out
}

} // verus!
