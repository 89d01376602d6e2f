//! Instance paths: `ReplicatedStorage/Shared/Greeting` style strings, split
//! on `/`, `.` and `\`.
use vstd::prelude::*;
use crate::text::{chars_of, copy_str, push_str, string_of, trim, trim_chars, trim_end, trim_start};

verus! {

/// A character that separates the parts of a path.
pub open spec fn is_separator(c: char) -> bool {
    c == '/' || c == '.' || c == '\\'
}

/// The pieces of `s` between separators, empty ones included, in order
/// (what `str::split` yields).
pub open spec fn pieces(s: Seq<char>) -> Seq<Seq<char>>
    decreases s.len(),
{
    if s.len() == 0 {
        seq![Seq::<char>::empty()]
    } else {
        let p = pieces(s.drop_last());
        if is_separator(s.last()) {
            p.push(Seq::<char>::empty())
        } else {
            p.update(p.len() - 1, p.last().push(s.last()))
        }
    }
}

/// The trimmed pieces that are not empty, in order.
pub open spec fn kept(ps: Seq<Seq<char>>) -> Seq<Seq<char>>
    decreases ps.len(),
{
    if ps.len() == 0 {
        Seq::empty()
    } else if trim(ps.last()).len() > 0 {
        kept(ps.drop_last()).push(trim(ps.last()))
    } else {
        kept(ps.drop_last())
    }
}

/// The parts of a path.
pub open spec fn split_spec(s: Seq<char>) -> Seq<Seq<char>> {
    kept(pieces(s))
}

/// The parts joined with `sep` between them.
pub open spec fn joined(ps: Seq<Seq<char>>, sep: Seq<char>) -> Seq<char>
    decreases ps.len(),
{
    if ps.len() == 0 {
        Seq::empty()
    } else if ps.len() == 1 {
        ps[0]
    } else {
        joined(ps.drop_last(), sep) + sep + ps.last()
    }
}

/// The views of a sequence of strings.
pub open spec fn views(v: Seq<String>) -> Seq<Seq<char>> {
    v.map_values(|x: String| x@)
}

/// The path of `name` inside `parent`.
pub open spec fn child_spec(parent: Seq<char>, name: Seq<char>) -> Seq<char> {
    if parent.len() == 0 {
        name
    } else {
        parent + seq!['/'] + name
    }
}

pub proof fn lemma_pieces_nonempty(s: Seq<char>)
    ensures
        pieces(s).len() >= 1,
    decreases s.len(),
{
    if s.len() > 0 {
        lemma_pieces_nonempty(s.drop_last());
    }
}

/// The parts of `path`: the text between `/`, `.` and `\`, trimmed, leaving
/// out the parts that are empty.
pub fn split(path: &str) -> (r: Vec<String>)
    ensures
        views(r@) == split_spec(path@),
{
    let cs = chars_of(path);
    let mut out: Vec<String> = Vec::new();
    let mut cur: Vec<char> = Vec::new();
    let ghost mut done: Seq<Seq<char>> = Seq::empty();
    let mut i: usize = 0;
    assert(cs@.take(0) =~= Seq::<char>::empty());
    while i < cs.len()
        invariant
            i <= cs@.len(),
            pieces(cs@.take(i as int)) == done.push(cur@),
            views(out@) == kept(done),
        decreases cs@.len() - i,
    {
        let c = cs[i];
        let ghost before = cs@.take(i as int);
        assert(cs@.take(i + 1).drop_last() =~= before);
        if c == '/' || c == '.' || c == '\\' {
            let t = trim_chars(cur.as_slice());
            if t.len() > 0 {
                let piece = string_of(t.as_slice());
                let ghost prev = out@;
                out.push(piece);
                assert(views(out@) =~= views(prev).push(piece@));
            }
            proof {
                assert(done.push(cur@).drop_last() =~= done);
                done = done.push(cur@);
            }
            cur = Vec::new();
            assert(pieces(cs@.take(i + 1)) =~= done.push(cur@));
        } else {
            let ghost old_cur = cur@;
            cur.push(c);
            assert(pieces(cs@.take(i + 1)) =~= done.push(cur@));
        }
        i = i + 1;
    }
    let t = trim_chars(cur.as_slice());
    if t.len() > 0 {
        let piece = string_of(t.as_slice());
        let ghost prev = out@;
        out.push(piece);
        assert(views(out@) =~= views(prev).push(piece@));
    }
    assert(cs@.take(cs@.len() as int) =~= cs@);
    assert(done.push(cur@).drop_last() =~= done);
    out
}

/// The parts joined with `sep` between them.
pub fn join_with(parts: &[String], sep: &str) -> (r: String)
    ensures
        r@ == joined(views(parts@), sep@),
{
    let mut out = String::new();
    let mut i: usize = 0;
    while i < parts.len()
        invariant
            i <= parts@.len(),
            out@ == joined(views(parts@.take(i as int)), sep@),
        decreases parts@.len() - i,
    {
        assert(views(parts@.take(i + 1)).drop_last() =~= views(parts@.take(i as int)));
        if i > 0 {
            push_str(&mut out, sep);
        }
        push_str(&mut out, parts[i].as_str());
        i = i + 1;
    }
    assert(parts@.take(parts@.len() as int) =~= parts@);
    out
}

/// The parts joined with `/`.
pub fn join(parts: &[String]) -> (r: String)
    ensures
        r@ == joined(views(parts@), seq!['/']),
{
    proof {
        reveal_strlit("/");
        assert("/"@ =~= seq!['/']);
    }
    join_with(parts, "/")
}

/// The path of `name` inside `parent`: `name` alone at the top.
pub fn child(parent: &str, name: &str) -> (r: String)
    ensures
        r@ == child_spec(parent@, name@),
{
    if parent.is_empty() {
        copy_str(name)
    } else {
        let mut out = copy_str(parent);
        push_str(&mut out, "/");
        proof {
            reveal_strlit("/");
        }
        push_str(&mut out, name);
        out
    }
}

/// A part that survives `split` unchanged.
pub open spec fn clean_part(p: Seq<char>) -> bool {
    &&& p.len() > 0
    &&& trim(p) == p
    &&& forall|k: int| 0 <= k < p.len() ==> !is_separator(#[trigger] p[k])
}

pub proof fn lemma_pieces_plain(p: Seq<char>)
    requires
        forall|k: int| 0 <= k < p.len() ==> !is_separator(#[trigger] p[k]),
    ensures
        pieces(p) == seq![p],
    decreases p.len(),
{
    if p.len() > 0 {
        let q = p.drop_last();
        assert forall|k: int| 0 <= k < q.len() implies !is_separator(#[trigger] q[k]) by {
            assert(q[k] == p[k]);
        }
        lemma_pieces_plain(q);
        assert(!is_separator(p[p.len() - 1]));
        assert(q.push(p.last()) =~= p);
        assert(seq![q].update(0, q.push(p.last())) =~= seq![p]);
    } else {
        assert(p =~= Seq::<char>::empty());
    }
}

pub proof fn lemma_kept_single(x: Seq<char>)
    ensures
        kept(seq![x]) == (if trim(x).len() > 0 {
            seq![trim(x)]
        } else {
            Seq::<Seq<char>>::empty()
        }),
{
    reveal_with_fuel(kept, 2);
    assert(seq![x].drop_last() =~= Seq::<Seq<char>>::empty());
    assert(seq![x].last() == x);
    if trim(x).len() > 0 {
        assert(Seq::<Seq<char>>::empty().push(trim(x)) =~= seq![trim(x)]);
    }
}

pub proof fn lemma_trim_empty()
    ensures
        trim(Seq::<char>::empty()) == Seq::<char>::empty(),
{
    assert(trim_start(Seq::<char>::empty()) == Seq::<char>::empty());
    assert(trim_end(Seq::<char>::empty()) == Seq::<char>::empty());
}

pub proof fn lemma_pieces_concat(a: Seq<char>, c: char, b: Seq<char>)
    requires
        is_separator(c),
    ensures
        pieces(a + seq![c] + b) == pieces(a) + pieces(b),
    decreases b.len(),
{
    lemma_pieces_nonempty(a);
    if b.len() == 0 {
        assert((a + seq![c] + b).drop_last() =~= a);
        assert(pieces(a) + pieces(b) =~= pieces(a).push(Seq::<char>::empty()));
    } else {
        lemma_pieces_concat(a, c, b.drop_last());
        lemma_pieces_nonempty(b.drop_last());
        assert((a + seq![c] + b).drop_last() =~= a + seq![c] + b.drop_last());
        assert((a + seq![c] + b).last() == b.last());
        let pa = pieces(a);
        let pb = pieces(b.drop_last());
        if is_separator(b.last()) {
            assert((pa + pb).push(Seq::<char>::empty()) =~= pa + pb.push(Seq::<char>::empty()));
        } else {
            assert((pa + pb).update((pa + pb).len() - 1, (pa + pb).last().push(b.last())) =~= pa
                + pb.update(pb.len() - 1, pb.last().push(b.last())));
        }
    }
}

pub proof fn lemma_kept_concat(x: Seq<Seq<char>>, y: Seq<Seq<char>>)
    ensures
        kept(x + y) == kept(x) + kept(y),
    decreases y.len(),
{
    if y.len() == 0 {
        assert(x + y =~= x);
        assert(kept(x) + kept(y) =~= kept(x));
    } else {
        lemma_kept_concat(x, y.drop_last());
        assert((x + y).drop_last() =~= x + y.drop_last());
        assert((x + y).last() == y.last());
        if trim(y.last()).len() > 0 {
            assert((kept(x) + kept(y.drop_last())).push(trim(y.last())) =~= kept(x) + kept(
                y.drop_last(),
            ).push(trim(y.last())));
        }
    }
}

/// Splitting a joined path gives back its parts, when every part is one
/// that `split` keeps as it is.
pub proof fn law_split_join(parts: Seq<Seq<char>>)
    requires
        forall|i: int| 0 <= i < parts.len() ==> clean_part(#[trigger] parts[i]),
    ensures
        split_spec(joined(parts, seq!['/'])) == parts,
    decreases parts.len(),
{
    if parts.len() == 0 {
        lemma_trim_empty();
        lemma_kept_single(Seq::<char>::empty());
        assert(pieces(Seq::<char>::empty()) == seq![Seq::<char>::empty()]);
        assert(kept(seq![Seq::<char>::empty()]) =~= parts);
    } else if parts.len() == 1 {
        let p = parts[0];
        assert(clean_part(p));
        lemma_pieces_plain(p);
        lemma_kept_single(p);
        assert(parts =~= seq![p]);
    } else {
        let init = parts.drop_last();
        let p = parts.last();
        assert(clean_part(parts[parts.len() - 1]));
        assert forall|i: int| 0 <= i < init.len() implies clean_part(#[trigger] init[i]) by {
            assert(init[i] == parts[i]);
        }
        law_split_join(init);
        let j = joined(init, seq!['/']);
        assert(joined(parts, seq!['/']) == j + seq!['/'] + p);
        lemma_pieces_concat(j, '/', p);
        lemma_pieces_plain(p);
        lemma_kept_concat(pieces(j), seq![p]);
        lemma_kept_single(p);
        assert(init + seq![p] =~= parts);
    }
}

/// The path of a child splits into the parts of its parent followed by the
/// child's own name, when that name is one that `split` keeps as it is.
pub proof fn law_split_child(parent: Seq<char>, name: Seq<char>)
    requires
        clean_part(name),
    ensures
        split_spec(child_spec(parent, name)) == split_spec(parent).push(name),
{
    lemma_pieces_plain(name);
    lemma_kept_single(name);
    if parent.len() == 0 {
        lemma_trim_empty();
        lemma_kept_single(Seq::<char>::empty());
        assert(pieces(parent) == seq![Seq::<char>::empty()]);
        assert(split_spec(parent).push(name) =~= seq![name]);
    } else {
        lemma_pieces_concat(parent, '/', name);
        lemma_kept_concat(pieces(parent), seq![name]);
        assert(split_spec(parent) + seq![name] =~= split_spec(parent).push(name));
    }
}


/// Whether two lists of strings hold the same strings in the same order.
pub fn strings_eq(a: &Vec<String>, b: &Vec<String>) -> (r: bool)
    ensures
        r == (views(a@) == views(b@)),
{
    if a.len() != b.len() {
        assert(views(a@).len() != views(b@).len());
        return false;
    }
    let mut i: usize = 0;
    while i < a.len()
        invariant
            a@.len() == b@.len(),
            i <= a@.len(),
            forall|k: int| 0 <= k < i ==> a@[k]@ == b@[k]@,
        decreases a@.len() - i,
    {
        if !crate::text::same_str(a[i].as_str(), b[i].as_str()) {
            assert(views(a@)[i as int] != views(b@)[i as int]);
            return false;
        }
        i = i + 1;
    }
    assert(views(a@) =~= views(b@));
    true
}

/// Whether `list` holds a string equal to `s`.
pub fn contains_string(list: &Vec<String>, s: &str) -> (r: bool)
    ensures
        r == views(list@).contains(s@),
{
    let mut i: usize = 0;
    while i < list.len()
        invariant
            i <= list@.len(),
            forall|k: int| 0 <= k < i ==> list@[k]@ != s@,
        decreases list@.len() - i,
    {
        if crate::text::same_str(list[i].as_str(), s) {
            assert(views(list@)[i as int] == s@);
            return true;
        }
        i = i + 1;
    }
    proof {
        if views(list@).contains(s@) {
            let k = choose|k: int| 0 <= k < views(list@).len() && views(list@)[k] == s@;
            assert(list@[k]@ == s@);
        }
    }
    false
}

/// A copy of a list of strings.
pub fn copy_strings(list: &Vec<String>) -> (r: Vec<String>)
    ensures
        views(r@) == views(list@),
{
    let r = list.clone();
    assert(views(r@) =~= views(list@));
    r
}

} // verus!
