//! How a hook script's `require` finds the module it names.
use vstd::prelude::*;
use crate::paths::{join_with, joined, views};
use crate::project::classify::is_luau_spec;
use crate::text::{chars_of, copy_str, ends_with_chars, lower, lower_chars, push_str, same_str, string_of};

verus! {

/// The pieces of `s` between `/` signs, empty ones included (what
/// `str::split('/')` yields).
pub open spec fn slash_pieces(s: Seq<char>) -> Seq<Seq<char>>
    decreases s.len(),
{
    if s.len() == 0 {
        seq![Seq::<char>::empty()]
    } else {
        let p = slash_pieces(s.drop_last());
        if s.last() == '/' {
            p.push(Seq::<char>::empty())
        } else {
            p.update(p.len() - 1, p.last().push(s.last()))
        }
    }
}

proof fn lemma_slash_pieces_nonempty(s: Seq<char>)
    ensures
        slash_pieces(s).len() >= 1,
    decreases s.len(),
{
    if s.len() > 0 {
        lemma_slash_pieces_nonempty(s.drop_last());
    }
}

/// The pieces of `s` between `/` signs.
fn split_slashes(s: &str) -> (r: Vec<String>)
    ensures
        views(r@) == slash_pieces(s@),
{
    let cs = chars_of(s);
    let mut done: Vec<String> = Vec::new();
    let mut cur: Vec<char> = Vec::new();
    let mut i: usize = 0;
    assert(cs@.take(0) =~= Seq::<char>::empty());
    assert(views(done@).push(cur@) =~= seq![Seq::<char>::empty()]);
    while i < cs.len()
        invariant
            i <= cs@.len(),
            cs@ == s@,
            slash_pieces(cs@.take(i as int)) == views(done@).push(cur@),
        decreases cs@.len() - i,
    {
        assert(cs@.take(i + 1).drop_last() =~= cs@.take(i as int));
        assert(cs@.take(i + 1).last() == cs@[i as int]);
        if cs[i] == '/' {
            let ghost prev = views(done@);
            let ghost pc = cur@;
            done.push(string_of(cur.as_slice()));
            assert(views(done@) =~= prev.push(pc));
            cur = Vec::new();
            assert(cur@ =~= Seq::<char>::empty());
            assert(views(done@).push(cur@) =~= prev.push(pc).push(Seq::<char>::empty()));
        } else {
            let ghost before = views(done@).push(cur@);
            cur.push(cs[i]);
            assert(views(done@).push(cur@) =~= before.update(before.len() - 1, before.last().push(cs@[i as int])));
        }
        i = i + 1;
    }
    assert(cs@.take(cs@.len() as int) =~= cs@);
    let ghost prev = views(done@);
    done.push(string_of(cur.as_slice()));
    assert(views(done@) =~= prev.push(cur@));
    done
}

/// The folder a module path is in: what comes before its last `/`.
pub open spec fn folder_spec(relative: Seq<char>) -> Seq<char> {
    match crate::cli::last_slash(relative) {
        Some(i) => relative.take(i),
        None => Seq::empty(),
    }
}

/// The folder a module path is in.
pub fn folder(relative: &str) -> (r: String)
    ensures
        r@ == folder_spec(relative@),
{
    let cs = chars_of(relative);
    let mut k: usize = cs.len();
    assert(cs@.take(cs@.len() as int) =~= cs@);
    while k > 0
        invariant
            k <= cs@.len(),
            cs@ == relative@,
            crate::cli::last_slash(relative@) == crate::cli::last_slash(cs@.take(k as int)),
        decreases k,
    {
        assert(cs@.take(k as int).drop_last() =~= cs@.take(k - 1));
        if cs[k - 1] == '/' {
            let mut out: Vec<char> = Vec::new();
            let mut j: usize = 0;
            while j < k - 1
                invariant
                    j <= k - 1,
                    k <= cs@.len(),
                    out@ == cs@.take(j as int),
                decreases k - 1 - j,
            {
                out.push(cs[j]);
                assert(cs@.take(j + 1) =~= cs@.take(j as int).push(cs@[j as int]));
                j = j + 1;
            }
            return string_of(out.as_slice());
        }
        k = k - 1;
    }
    String::new()
}

/// The parts reached from `parts` by the first `n` steps of a relative
/// path: empty and `.` steps stay, `..` goes up (failing at the top), a
/// step holding `:` fails, any other goes down.
pub open spec fn walked(parts: Seq<Seq<char>>, steps: Seq<Seq<char>>, n: int) -> Option<Seq<Seq<char>>>
    decreases n,
{
    if n <= 0 || n > steps.len() {
        Some(parts)
    } else {
        match walked(parts, steps, n - 1) {
            None => None,
            Some(ps) => {
                let t = steps[n - 1];
                if t.len() == 0 || t == "."@ {
                    Some(ps)
                } else if t == ".."@ {
                    if ps.len() == 0 {
                        None
                    } else {
                        Some(ps.drop_last())
                    }
                } else if t.contains(':') {
                    None
                } else {
                    Some(ps.push(t))
                }
            },
        }
    }
}

/// The non-empty pieces of a path, in order.
pub open spec fn non_empty(ps: Seq<Seq<char>>) -> Seq<Seq<char>>
    decreases ps.len(),
{
    if ps.len() == 0 {
        ps
    } else if ps.last().len() == 0 {
        non_empty(ps.drop_last())
    } else {
        non_empty(ps.drop_last()).push(ps.last())
    }
}

/// The module path `target` names from the folder `base`, or nothing when
/// it climbs out of the project or holds a `:`.
pub open spec fn join_spec(base: Seq<char>, target: Seq<char>) -> Option<Seq<char>> {
    let steps = slash_pieces(target);
    match walked(non_empty(slash_pieces(base)), steps, steps.len() as int) {
        Some(ps) => Some(joined(ps, "/"@)),
        None => None,
    }
}

/// The module path `target` names from the folder `base` (see `join_spec`).
pub fn join(base: &str, target: &str) -> (r: Option<String>)
    ensures
        match r {
            Some(s) => join_spec(base@, target@) == Some(s@),
            None => join_spec(base@, target@) is None,
        },
{
    proof {
        reveal_strlit(".");
        reveal_strlit("..");
    }
    let pieces = split_slashes(base);
    let ghost bp = views(pieces@);
    let mut parts: Vec<String> = Vec::new();
    let mut i: usize = 0;
    while i < pieces.len()
        invariant
            i <= pieces@.len(),
            bp == views(pieces@),
            views(parts@) == non_empty(bp.take(i as int)),
        decreases pieces@.len() - i,
    {
        assert(bp.take(i + 1).drop_last() =~= bp.take(i as int));
        assert(bp.take(i + 1).last() == pieces@[i as int]@);
        if !pieces[i].as_str().is_empty() {
            let ghost prev = views(parts@);
            parts.push(pieces[i].clone());
            assert(views(parts@) =~= prev.push(pieces@[i as int]@));
        }
        i = i + 1;
    }
    assert(bp.take(i as int) =~= bp);
    let steps = split_slashes(target);
    let ghost ts = views(steps@);
    let mut j: usize = 0;
    while j < steps.len()
        invariant
            j <= steps@.len(),
            ts == views(steps@),
            ts == slash_pieces(target@),
            bp == slash_pieces(base@),
            walked(non_empty(bp), ts, j as int) == Some(views(parts@)),
        decreases steps@.len() - j,
    {
        let t = steps[j].as_str();
        assert(ts[j as int] == t@);
        if t.is_empty() || same_str(t, ".") {
        } else if same_str(t, "..") {
            if parts.len() == 0 {
                assert(walked(non_empty(bp), ts, j + 1) is None);
                proof {
                    lemma_walked_none(non_empty(bp), ts, j + 1, ts.len() as int);
                }
                return None;
            }
            let ghost prev = views(parts@);
            parts.pop();
            assert(views(parts@) =~= prev.drop_last());
        } else if crate::text::contains_char(chars_of(t).as_slice(), ':') {
            assert(walked(non_empty(bp), ts, j + 1) is None);
            proof {
                lemma_walked_none(non_empty(bp), ts, j + 1, ts.len() as int);
            }
            return None;
        } else {
            let ghost prev = views(parts@);
            parts.push(copy_str(t));
            assert(views(parts@) =~= prev.push(t@));
        }
        j = j + 1;
    }
    Some(join_with(parts.as_slice(), "/"))
}

proof fn lemma_walked_none(parts: Seq<Seq<char>>, steps: Seq<Seq<char>>, a: int, b: int)
    requires
        1 <= a <= b <= steps.len(),
        walked(parts, steps, a) is None,
    ensures
        walked(parts, steps, b) is None,
    decreases b - a,
{
    if a < b {
        lemma_walked_none(parts, steps, a, b - 1);
    }
}

/// The files a module path may be, in the order they are looked for: the
/// path itself when it names a Luau file, then with `.luau`, `.lua`,
/// `/init.luau` and `/init.lua` added (without the slash for an empty
/// path).
pub open spec fn candidates_spec(relative: Seq<char>) -> Seq<Seq<char>> {
    let with = |suffix: Seq<char>|
        if relative.len() == 0 {
            crate::text::trim_leading(suffix, '/')
        } else {
            relative + suffix
        };
    (if is_luau_spec(lower(relative)) {
        seq![relative]
    } else {
        Seq::empty()
    }) + seq![with(".luau"@), with(".lua"@), with("/init.luau"@), with("/init.lua"@)]
}

/// `relative` with `suffix` added, or the suffix alone without its slash
/// when `relative` is empty.
fn with_suffix(relative: &str, suffix: &str) -> (r: String)
    ensures
        r@ == if relative@.len() == 0 {
            crate::text::trim_leading(suffix@, '/')
        } else {
            relative@ + suffix@
        },
{
    if relative.is_empty() {
        crate::text::strip_leading(suffix, '/')
    } else {
        let mut out = copy_str(relative);
        push_str(&mut out, suffix);
        out
    }
}

/// The files a module path may be (see `candidates_spec`).
pub fn candidates(relative: &str) -> (r: Vec<String>)
    ensures
        views(r@) == candidates_spec(relative@),
{
    let low = lower_chars(chars_of(relative).as_slice());
    let mut out: Vec<String> = Vec::new();
    if ends_with_chars(low.as_slice(), chars_of(".luau").as_slice()) || ends_with_chars(
        low.as_slice(),
        chars_of(".lua").as_slice(),
    ) {
        out.push(copy_str(relative));
    }
    out.push(with_suffix(relative, ".luau"));
    out.push(with_suffix(relative, ".lua"));
    out.push(with_suffix(relative, "/init.luau"));
    out.push(with_suffix(relative, "/init.lua"));
    assert(views(out@) =~= candidates_spec(relative@));
    out
}

} // verus!
