//! The command line: its commands, and how a project argument names the
//! manifest to read.
use vstd::prelude::*;
use crate::text::{chars_of, copy_str, ends_with, ends_with_str, push_str, string_of};

verus! {

/// The command line.
#[derive(Debug)]
pub struct Cli {
    pub command: Command,
}

/// What RoFlux is asked to do.
#[derive(Debug)]
pub enum Command {
    /// Watch a project and stream its changes into Studio.
    Serve { project: String, port: u16, quiet: bool },
    /// Compile a project once and refresh its sourcemap.
    Compile { project: String, quiet: bool },
    /// Set up a new project in a folder.
    Init { project: String },
    /// Write a place or model file.
    Build { project: String, output: String, quiet: bool },
    /// Install the Studio plugin, or write it to a file.
    Plugin { output: Option<String>, to: Option<String> },
}

/// The manifest a project argument names: itself when it ends with
/// `.project.json`, the folder's `default.project.json` when it is a
/// folder, otherwise the argument with `.project.json` added.
pub open spec fn candidate_spec(target: Seq<char>, is_dir: bool) -> Seq<char> {
    if ends_with(target, ".project.json"@) {
        target
    } else if is_dir {
        if ends_with(target, "/"@) {
            target + "default.project.json"@
        } else {
            target + "/default.project.json"@
        }
    } else {
        target + ".project.json"@
    }
}

/// The position of the last `/` in `s`.
pub open spec fn last_slash(s: Seq<char>) -> Option<int>
    decreases s.len(),
{
    if s.len() == 0 {
        None
    } else if s.last() == '/' {
        Some(s.len() - 1)
    } else {
        last_slash(s.drop_last())
    }
}

/// The folder a manifest path is in: what comes before its last `/`, or
/// `.` where that is nothing.
pub open spec fn folder_spec(path: Seq<char>) -> Seq<char> {
    match last_slash(path) {
        Some(i) => if i == 0 {
            "/"@
        } else {
            path.take(i)
        },
        None => "."@,
    }
}

/// The file name of a manifest path: what comes after its last `/`.
pub open spec fn manifest_spec(path: Seq<char>) -> Seq<char> {
    match last_slash(path) {
        Some(i) => path.skip(i + 1),
        None => path,
    }
}

/// The manifest a project argument names (see `candidate_spec`); `is_dir`
/// tells whether the argument is a folder.
pub fn candidate(target: &str, is_dir: bool) -> (r: String)
    ensures
        r@ == candidate_spec(target@, is_dir),
{
    let cs = chars_of(target);
    if ends_with_str(cs.as_slice(), ".project.json") {
        return copy_str(target);
    }
    let mut out = copy_str(target);
    if is_dir {
        if ends_with_str(cs.as_slice(), "/") {
            push_str(&mut out, "default.project.json");
        } else {
            push_str(&mut out, "/default.project.json");
        }
    } else {
        push_str(&mut out, ".project.json");
    }
    out
}

fn last_slash_of(s: &[char]) -> (r: Option<usize>)
    ensures
        match r {
            Some(i) => last_slash(s@) == Some(i as int) && i < s@.len(),
            None => last_slash(s@) is None,
        },
{
    let mut k: usize = s.len();
    assert(s@.take(s@.len() as int) =~= s@);
    while k > 0
        invariant
            k <= s@.len(),
            last_slash(s@) == last_slash(s@.take(k as int)),
        decreases k,
    {
        assert(s@.take(k as int).drop_last() =~= s@.take(k - 1));
        if s[k - 1] == '/' {
            return Some(k - 1);
        }
        k = k - 1;
    }
    None
}

/// What comes before the last `/` of a path (see `folder_spec`) and what
/// comes after it (see `manifest_spec`).
pub fn locate_name(path: &str) -> (r: (String, String))
    ensures
        r.0@ == folder_spec(path@),
        r.1@ == manifest_spec(path@),
{
    let cs = chars_of(path);
    let n: usize = cs.len();
    match last_slash_of(cs.as_slice()) {
        Some(i) => {
            let folder = if i == 0 {
                String::from_str("/")
            } else {
                let mut head: Vec<char> = Vec::new();
                let mut k: usize = 0;
                while k < i
                    invariant
                        k <= i < cs@.len(),
                        head@ == cs@.take(k as int),
                    decreases i - k,
                {
                    head.push(cs[k]);
                    assert(cs@.take(k + 1) =~= cs@.take(k as int).push(cs@[k as int]));
                    k = k + 1;
                }
                string_of(head.as_slice())
            };
            let mut tail: Vec<char> = Vec::new();
            let mut k: usize = i + 1;
            while k < n
                invariant
                    n == cs@.len(),
                    i + 1 <= k <= cs@.len(),
                    tail@ == cs@.subrange(i + 1, k as int),
                decreases cs@.len() - k,
            {
                tail.push(cs[k]);
                assert(cs@.subrange(i + 1, k + 1) =~= cs@.subrange(i + 1, k as int).push(cs@[k as int]));
                k = k + 1;
            }
            assert(tail@ =~= cs@.skip(i + 1));
            (folder, string_of(tail.as_slice()))
        },
        None => (String::from_str("."), copy_str(path)),
    }
}

/// The folder a project's manifest is in and the manifest's file name,
/// from the project argument; `is_dir` tells whether the argument is a
/// folder.
pub fn locate(target: &str, is_dir: bool) -> (r: (String, String))
    ensures
        r.0@ == folder_spec(candidate_spec(target@, is_dir)),
        r.1@ == manifest_spec(candidate_spec(target@, is_dir)),
{
    let path = candidate(target, is_dir);
    locate_name(path.as_str())
}

/// Why a project argument cannot be used, given the folder its manifest
/// is in and the manifest's path: the folder is missing, or the manifest
/// is; nothing when both are there.
pub open spec fn located_spec(folder: Seq<char>, path: Seq<char>, folder_exists: bool, path_exists: bool) -> Result<
    (),
    Seq<char>,
> {
    if !folder_exists {
        Err("there is no folder \""@ + folder + "\""@)
    } else if !path_exists {
        Err("there is no "@ + path + ", run \"roflux init\" to make one"@)
    } else {
        Ok(())
    }
}

/// Whether a project argument can be used (see `located_spec`), from
/// whether the folder its manifest is in and the manifest exist.
pub fn located(folder: &str, path: &str, folder_exists: bool, path_exists: bool) -> (r: Result<(), String>)
    ensures
        match r {
            Ok(()) => located_spec(folder@, path@, folder_exists, path_exists) is Ok,
            Err(m) => located_spec(folder@, path@, folder_exists, path_exists) == Err::<(), Seq<char>>(m@),
        },
{
    if !folder_exists {
        let mut m = String::from_str("there is no folder \"");
        push_str(&mut m, folder);
        push_str(&mut m, "\"");
        return Err(m);
    }
    if !path_exists {
        let mut m = String::from_str("there is no ");
        push_str(&mut m, path);
        push_str(&mut m, ", run \"roflux init\" to make one");
        return Err(m);
    }
    Ok(())
}

/// The manifest `roflux init` writes for a project named `name`.
pub open spec fn manifest_body_spec(name: Seq<char>) -> Seq<char> {
    "{\n    \"ProjectID\": \""@ + name + "\",\n    \"Default\": \"ReplicatedStorage\"\n}\n"@
}

/// The manifest `roflux init` writes for a project named `name`.
pub fn manifest_body(name: &str) -> (r: String)
    ensures
        r@ == manifest_body_spec(name@),
{
    let mut out = String::from_str("{\n    \"ProjectID\": \"");
    push_str(&mut out, name);
    push_str(&mut out, "\",\n    \"Default\": \"ReplicatedStorage\"\n}\n");
    out
}

} // verus!
