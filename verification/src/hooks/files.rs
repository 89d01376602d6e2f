//! Paths hook scripts name, which must stay inside the project.
use vstd::prelude::*;
use crate::paths::views;
use crate::sync::watch::file_parts;

verus! {

/// The parts that are not `.`, in order.
pub open spec fn without_dots(ps: Seq<Seq<char>>) -> Seq<Seq<char>>
    decreases ps.len(),
{
    if ps.len() == 0 {
        ps
    } else if ps.last() == "."@ {
        without_dots(ps.drop_last())
    } else {
        without_dots(ps.drop_last()).push(ps.last())
    }
}

/// The parts of a path a hook script names, as seen from the project
/// folder: nothing for an absolute path or one that climbs out with `..`;
/// `.` parts are dropped.
pub open spec fn resolve_spec(relative: Seq<char>) -> Option<Seq<Seq<char>>> {
    if relative.len() > 0 && (relative[0] == '/' || relative[0] == '\\') {
        None
    } else {
        let parts = file_parts(relative);
        if parts.contains(".."@) {
            None
        } else {
            Some(without_dots(parts))
        }
    }
}

/// The parts of a path a hook script names (see `resolve_spec`).
pub fn resolve(relative: &str) -> (r: Option<Vec<String>>)
    ensures
        match r {
            Some(v) => resolve_spec(relative@) == Some(views(v@)),
            None => resolve_spec(relative@) is None,
        },
{
    let cs = crate::text::chars_of(relative);
    if cs.len() > 0 && (cs[0] == '/' || cs[0] == '\\') {
        return None;
    }
    let parts = crate::sync::watch::parts_of(relative);
    if crate::paths::contains_string(&parts, "..") {
        return None;
    }
    let ghost ps = views(parts@);
    let mut out: Vec<String> = Vec::new();
    let mut i: usize = 0;
    while i < parts.len()
        invariant
            i <= parts@.len(),
            ps == views(parts@),
            views(out@) == without_dots(ps.take(i as int)),
        decreases parts@.len() - i,
    {
        assert(ps.take(i + 1).drop_last() =~= ps.take(i as int));
        if !crate::text::same_str(parts[i].as_str(), ".") {
            let ghost prev = views(out@);
            out.push(parts[i].clone());
            assert(views(out@) =~= prev.push(ps[i as int]));
        }
        i = i + 1;
    }
    assert(ps.take(i as int) =~= ps);
    Some(out)
}

/// Whether a folder entry is passed over when listing a project's files.
pub fn skipped(name: &str) -> (r: bool)
    ensures
        r == crate::project::scan::skipped_spec(name@, false),
{
    crate::project::scan::skipped(name, false)
}

/// Whether `globset` matches `path` against `pattern`, with `*` not
/// crossing a `/`; the message of its error where the pattern does not
/// compile.
pub uninterp spec fn glob_result(pattern: Seq<char>, path: Seq<char>) -> Result<bool, Seq<char>>;

/// A match outcome with the message as characters.
pub open spec fn bool_result_view(r: Result<bool, String>) -> Result<bool, Seq<char>> {
    match r {
        Ok(b) => Ok(b),
        Err(m) => Err(m@),
    }
}

/// `globset::GlobBuilder::new(pattern).literal_separator(true).build()`,
/// the glob put alone into a `globset::GlobSet` (whose `build` returns an
/// error where the regex grows too large), then `is_match(path)` on it: the
/// contract claims only that the outcome is a function of the pattern and
/// the path, named `glob_result`, with the error's message where
/// building fails. The set's literal matchers unwrap an
/// `AhoCorasick` build that fails only for literals of about 2^31 bytes,
/// which the bound on the pattern rules out.
#[verifier::external_body]
fn glob_match(pattern: &str, path: &str) -> (r: Result<bool, String>)
    requires
        pattern@.len() < GLOB_LIMIT,
    ensures
        bool_result_view(r) == glob_result(pattern@, path@),
{
    let glob = globset::GlobBuilder::new(pattern).literal_separator(true).build().map_err(|e| e.to_string())?;
    let set = globset::GlobSetBuilder::new().add(glob).build().map_err(|e| e.to_string())?;
    Ok(set.is_match(path))
}

/// The longest glob pattern, in characters, that hook scripts may use.
pub const GLOB_LIMIT: usize = 0x1000_0000;

/// The paths among `paths` that `pattern` matches, in order.
pub open spec fn globbed(pattern: Seq<char>, paths: Seq<Seq<char>>) -> Seq<Seq<char>>
    decreases paths.len(),
{
    if paths.len() == 0 {
        paths
    } else if glob_result(pattern, paths.last()) == Ok::<bool, Seq<char>>(true) {
        globbed(pattern, paths.drop_last()).push(paths.last())
    } else {
        globbed(pattern, paths.drop_last())
    }
}

/// The paths a hook script's glob matches, in order; an error naming the
/// pattern and why where it does not compile.
pub fn glob(pattern: &str, paths: &Vec<String>) -> (r: Result<Vec<String>, String>)
    requires
        pattern@.len() < GLOB_LIMIT,
    ensures
        match r {
            Ok(v) => glob_result(pattern@, ""@) is Ok && views(v@) == globbed(pattern@, views(paths@)),
            Err(e) => glob_result(pattern@, ""@) matches Err(m) && e@ == "bad glob \""@ + pattern@ + "\": "@ + m,
        },
{
    if let Err(error) = glob_match(pattern, "") {
        let mut message = String::from_str("bad glob \"");
        crate::text::push_str(&mut message, pattern);
        crate::text::push_str(&mut message, "\": ");
        crate::text::push_str(&mut message, error.as_str());
        return Err(message);
    }
    let ghost ps = views(paths@);
    let mut out: Vec<String> = Vec::new();
    let mut i: usize = 0;
    while i < paths.len()
        invariant
            i <= paths@.len(),
            ps == views(paths@),
            pattern@.len() < GLOB_LIMIT,
            views(out@) == globbed(pattern@, ps.take(i as int)),
        decreases paths@.len() - i,
    {
        assert(ps.take(i + 1).drop_last() =~= ps.take(i as int));
        assert(ps.take(i + 1).last() == paths@[i as int]@);
        let hit = match glob_match(pattern, paths[i].as_str()) {
            Ok(b) => b,
            Err(_) => false,
        };
        if hit {
            let ghost prev = views(out@);
            out.push(paths[i].clone());
            assert(views(out@) =~= prev.push(paths@[i as int]@));
        }
        i = i + 1;
    }
    assert(ps.take(i as int) =~= ps);
    Ok(out)
}

} // verus!
