//! Changes to a project's files: which ones matter, how a burst of them is
//! gathered, and what a batch of them asks for.
use vstd::prelude::*;
use crate::paths::{contains_string, views};
use crate::project::classify::{is_luau, is_luau_spec};
use crate::patch::Patch;
use crate::text::{push_str, chars_of, ends_with, ends_with_chars, ends_with_str, same_str, starts_with, string_of, strip_leading, trim_leading};

verus! {

/// A change to a file, by its path.
#[derive(Debug)]
pub enum Change {
    Added(String),
    Removed(String),
    Changed(String),
}

/// The path a change is to.
pub open spec fn change_path(c: Change) -> Seq<char> {
    match c {
        Change::Added(p) => p@,
        Change::Removed(p) => p@,
        Change::Changed(p) => p@,
    }
}

/// The hook event a change is reported as.
pub open spec fn change_event(c: Change) -> Seq<char> {
    match c {
        Change::Added(_) => "added"@,
        Change::Removed(_) => "removed"@,
        Change::Changed(_) => "changed"@,
    }
}

impl Change {
    /// The path this change is to.
    pub fn path(&self) -> (r: &str)
        ensures
            r@ == change_path(*self),
    {
        match self {
            Change::Added(p) => p.as_str(),
            Change::Removed(p) => p.as_str(),
            Change::Changed(p) => p.as_str(),
        }
    }

    /// The hook event this change is reported as.
    pub fn event(&self) -> (r: &'static str)
        ensures
            r@ == change_event(*self),
    {
        match self {
            Change::Added(_) => "added",
            Change::Removed(_) => "removed",
            Change::Changed(_) => "changed",
        }
    }
}

/// Whether two changes are the same: the same kind, to the same path.
pub open spec fn same_change_spec(a: Change, b: Change) -> bool {
    change_event(a) == change_event(b) && change_path(a) == change_path(b)
}

fn same_change(a: &Change, b: &Change) -> (r: bool)
    ensures
        r == same_change_spec(*a, *b),
{
    proof {
        reveal_strlit("added");
        reveal_strlit("removed");
        reveal_strlit("changed");
    }
    same_str(a.event(), b.event()) && same_str(a.path(), b.path())
}

/// Adds a change to a batch unless the batch already has it.
pub fn add_change(batch: &mut Vec<Change>, change: Change)
    ensures
        final(batch)@ == with_change(old(batch)@, change),
{
    let mut i: usize = 0;
    while i < batch.len()
        invariant
            i <= batch@.len(),
            batch@ == old(batch)@,
            forall|k: int| 0 <= k < i ==> !same_change_spec(batch@[k], change),
        decreases batch@.len() - i,
    {
        if same_change(&batch[i], &change) {
            return;
        }
        i = i + 1;
    }
    batch.push(change);
}

/// A batch once a change is added: unchanged when it already holds that
/// change, else with the change last.
pub open spec fn with_change(batch: Seq<Change>, change: Change) -> Seq<Change> {
    if exists|i: int| 0 <= i < batch.len() && same_change_spec(batch[i], change) {
        batch
    } else {
        batch.push(change)
    }
}

/// No two changes of the batch are the same.
pub open spec fn distinct_changes(batch: Seq<Change>) -> bool {
    forall|i: int, j: int| 0 <= i < j < batch.len() ==> !same_change_spec(#[trigger] batch[i], #[trigger] batch[j])
}

/// A batch gathered by adding changes one by one holds each change once.
pub proof fn law_batch_distinct(batch: Seq<Change>, change: Change)
    requires
        distinct_changes(batch),
    ensures
        distinct_changes(with_change(batch, change)),
{
    let r = with_change(batch, change);
    if !(exists|i: int| 0 <= i < batch.len() && same_change_spec(batch[i], change)) {
        assert forall|i: int, j: int| 0 <= i < j < r.len() implies !same_change_spec(
            #[trigger] r[i],
            #[trigger] r[j],
        ) by {
            if j == batch.len() {
                assert(r[i] == batch[i]);
                assert(r[j] == change);
            } else {
                assert(r[i] == batch[i]);
                assert(r[j] == batch[j]);
            }
        }
    }
}

/// A separator of a file path.
pub open spec fn file_separator(c: char) -> bool {
    c == '/' || c == '\\'
}

/// The non-empty parts of a file path, in order.
pub open spec fn file_parts(s: Seq<char>) -> Seq<Seq<char>>
    decreases s.len(),
{
    file_parts_from(s, Seq::empty(), Seq::empty())
}

/// The parts of `s` after `done` and the part `cur` it continues.
pub open spec fn file_parts_from(s: Seq<char>, done: Seq<Seq<char>>, cur: Seq<char>) -> Seq<Seq<char>>
    decreases s.len(),
{
    if s.len() == 0 {
        if cur.len() > 0 {
            done.push(cur)
        } else {
            done
        }
    } else if file_separator(s[0]) {
        file_parts_from(s.drop_first(), if cur.len() > 0 {
            done.push(cur)
        } else {
            done
        }, Seq::empty())
    } else {
        file_parts_from(s.drop_first(), done, cur.push(s[0]))
    }
}

/// The non-empty parts of a file path.
pub fn parts_of(path: &str) -> (r: Vec<String>)
    ensures
        views(r@) == file_parts(path@),
{
    let cs = chars_of(path);
    let mut done: Vec<String> = Vec::new();
    let mut cur: Vec<char> = Vec::new();
    let mut i: usize = 0;
    assert(cs@.skip(0) =~= cs@);
    assert(views(done@) =~= Seq::<Seq<char>>::empty());
    assert(cur@ =~= Seq::<char>::empty());
    while i < cs.len()
        invariant
            i <= cs@.len(),
            cs@ == path@,
            file_parts(path@) == file_parts_from(cs@.skip(i as int), views(done@), cur@),
        decreases cs@.len() - i,
    {
        assert(cs@.skip(i as int).drop_first() =~= cs@.skip(i + 1));
        assert(cs@.skip(i as int)[0] == cs@[i as int]);
        if cs[i] == '/' || cs[i] == '\\' {
            if cur.len() > 0 {
                let ghost prev = views(done@);
                let part = string_of(cur.as_slice());
                done.push(part);
                assert(views(done@) =~= prev.push(cur@));
            }
            cur = Vec::new();
        } else {
            cur.push(cs[i]);
        }
        i = i + 1;
    }
    if cur.len() > 0 {
        let ghost prev = views(done@);
        let part = string_of(cur.as_slice());
        done.push(part);
        assert(views(done@) =~= prev.push(cur@));
    }
    done
}

/// Whether a change to the file at `path` can matter: not hidden, not an
/// editor backup, not the sourcemap, and not under `target`,
/// `node_modules` or `.git`.
pub open spec fn relevant_spec(path: Seq<char>) -> bool {
    let parts = file_parts(path);
    match last_named(parts) {
        None => false,
        Some(name) => !starts_with(name, "."@) && !ends_with(name, "~"@) && name != "sourcemap.json"@
            && !parts.contains("target"@) && !parts.contains("node_modules"@) && !parts.contains(
            ".git"@,
        ),
    }
}

/// The last part of a path that is not `.`: the name of what it points at.
pub open spec fn last_named(parts: Seq<Seq<char>>) -> Option<Seq<char>>
    decreases parts.len(),
{
    if parts.len() == 0 {
        None
    } else if parts.last() != "."@ {
        Some(parts.last())
    } else {
        last_named(parts.drop_last())
    }
}

/// Whether a change to the file at `path` can matter.
pub fn relevant(path: &str) -> (r: bool)
    ensures
        r == relevant_spec(path@),
{
    let parts = parts_of(path);
    let ghost ps = views(parts@);
    let mut k: usize = parts.len();
    assert(ps.take(k as int) =~= ps);
    while k > 0 && same_str(parts[k - 1].as_str(), ".")
        invariant
            k <= parts@.len(),
            ps == views(parts@),
            last_named(ps) == last_named(ps.take(k as int)),
        decreases k,
    {
        assert(ps.take(k as int).drop_last() =~= ps.take(k - 1));
        k = k - 1;
    }
    if k == 0 {
        return false;
    }
    assert(ps.take(k as int).last() == ps[k - 1]);
    let name = parts[k - 1].as_str();
    assert(last_named(ps) == Some(name@));
    let cs = chars_of(name);
    proof {
        reveal_strlit(".");
        reveal_strlit("~");
        assert("."@ =~= seq!['.']);
    }
    if cs.len() > 0 && cs[0] == '.' {
        assert(name@.subrange(0, 1) =~= "."@);
        return false;
    }
    assert(!starts_with(name@, "."@)) by {
        if name@.len() >= 1 {
            assert(name@.subrange(0, 1)[0] == name@[0]);
        }
    }
    if ends_with_str(cs.as_slice(), "~") {
        return false;
    }
    if same_str(name, "sourcemap.json") {
        return false;
    }
    !contains_string(&parts, "target") && !contains_string(&parts, "node_modules")
        && !contains_string(&parts, ".git")
}

/// Whether `p` occurs in `s`.
pub open spec fn has_infix(s: Seq<char>, p: Seq<char>) -> bool {
    exists|i: int| 0 <= i && i + p.len() <= s.len() && #[trigger] s.subrange(i, i + p.len()) == p
}

fn infix(s: &[char], p: &[char]) -> (r: bool)
    ensures
        r == has_infix(s@, p@),
{
    if p.len() > s.len() {
        return false;
    }
    let n = s.len() - p.len();
    let mut i: usize = 0;
    loop
        invariant
            n + p@.len() == s@.len(),
            s@.len() <= usize::MAX,
            i <= n,
            forall|k: int| 0 <= k < i ==> #[trigger] s@.subrange(k, k + p@.len()) != p@,
        decreases n - i,
    {
        let mut j: usize = 0;
        let mut same = true;
        while j < p.len()
            invariant
                j <= p@.len(),
                i <= n,
                n + p@.len() == s@.len(),
                s@.len() <= usize::MAX,
                same == (forall|q: int| 0 <= q < j ==> s@[i + q] == p@[q]),
            decreases p@.len() - j,
        {
            if s[i + j] != p[j] {
                same = false;
            }
            j = j + 1;
        }
        if same {
            assert(s@.subrange(i as int, i + p@.len()) =~= p@);
            return true;
        }
        proof {
            let q = choose|q: int| 0 <= q < p@.len() && s@[i + q] != p@[q];
            assert(s@.subrange(i as int, i + p@.len())[q] == s@[i + q]);
        }
        if i == n {
            proof {
                assert forall|k: int| 0 <= k && k + p@.len() <= s@.len() implies #[trigger] s@.subrange(
                    k,
                    k + p@.len(),
                ) != p@ by {
                    if k < i {
                    }
                }
            }
            return false;
        }
        i = i + 1;
    }
}

/// Whether a change to a hook script is in the batch: a Luau file under a
/// `scripts` folder.
pub open spec fn touches_hooks(batch: Seq<Change>) -> bool {
    exists|i: int|
        0 <= i < batch.len() && has_infix(change_path(#[trigger] batch[i]), "/scripts/"@) && is_luau_spec(
            change_path(batch[i]),
        )
}

/// A batch plans a hook reload exactly when one of its changes is to a
/// path that holds `/scripts/` and ends in `.luau` or `.lua`.
pub proof fn law_hook_reload(batch: Seq<Change>)
    ensures
        touches_hooks(batch) <==> exists|i: int|
            0 <= i < batch.len() && has_infix(change_path(#[trigger] batch[i]), "/scripts/"@) && (ends_with(
                change_path(batch[i]),
                ".luau"@,
            ) || ends_with(change_path(batch[i]), ".lua"@)),
{
}

/// Whether a change to the manifest is in the batch.
pub open spec fn touches_config(batch: Seq<Change>, manifest: Seq<char>) -> bool {
    exists|i: int| 0 <= i < batch.len() && ends_with(change_path(#[trigger] batch[i]), manifest)
}

/// Whether the batch changes a hook script.
pub fn touched_hooks(batch: &Vec<Change>) -> (r: bool)
    ensures
        r == touches_hooks(batch@),
{
    let pattern = chars_of("/scripts/");
    let mut i: usize = 0;
    while i < batch.len()
        invariant
            i <= batch@.len(),
            pattern@ == "/scripts/"@,
            forall|k: int|
                0 <= k < i ==> !(has_infix(change_path(#[trigger] batch@[k]), "/scripts/"@)
                    && is_luau_spec(change_path(batch@[k]))),
        decreases batch@.len() - i,
    {
        let path = batch[i].path();
        let cs = chars_of(path);
        if infix(cs.as_slice(), pattern.as_slice()) && is_luau(path) {
            return true;
        }
        i = i + 1;
    }
    false
}

/// Whether the batch changes the manifest.
pub fn touched_config(batch: &Vec<Change>, manifest: &str) -> (r: bool)
    ensures
        r == touches_config(batch@, manifest@),
{
    let m = chars_of(manifest);
    let mut i: usize = 0;
    while i < batch.len()
        invariant
            i <= batch@.len(),
            m@ == manifest@,
            forall|k: int| 0 <= k < i ==> !ends_with(change_path(#[trigger] batch@[k]), manifest@),
        decreases batch@.len() - i,
    {
        let cs = chars_of(batch[i].path());
        if ends_with_chars(cs.as_slice(), m.as_slice()) {
            return true;
        }
        i = i + 1;
    }
    false
}

/// The path of a changed file as seen from the project folder: without
/// the folder's path in front, and without leading slashes.
pub open spec fn relative_spec(path: Seq<char>, root: Seq<char>) -> Seq<char> {
    trim_leading(if starts_with(path, root) {
        path.skip(root.len() as int)
    } else {
        path
    }, '/')
}

/// The path of a changed file as seen from the project folder.
pub fn relative_to(path: &str, root: &str) -> (r: String)
    ensures
        r@ == relative_spec(path@, root@),
{
    let cs = chars_of(path);
    let rs = chars_of(root);
    let rest = if crate::text::starts_with_chars(cs.as_slice(), rs.as_slice()) {
        let mut out: Vec<char> = Vec::new();
        let mut k: usize = rs.len();
        while k < cs.len()
            invariant
                rs@.len() <= k <= cs@.len(),
                out@ == cs@.subrange(rs@.len() as int, k as int),
            decreases cs@.len() - k,
        {
            out.push(cs[k]);
            assert(cs@.subrange(rs@.len() as int, k + 1) =~= cs@.subrange(rs@.len() as int, k as int).push(
                cs@[k as int],
            ));
            k = k + 1;
        }
        assert(out@ =~= path@.skip(root@.len() as int));
        string_of(out.as_slice())
    } else {
        crate::text::copy_str(path)
    };
    strip_leading(rest.as_str(), '/')
}

/// What a batch of changes asks for: the hook scripts reloaded when one of
/// them changed, the manifest reloaded when it changed, and each change
/// handed to the hook scripts as its event and its path from the project
/// folder; a rebuild follows.
#[derive(Debug)]
pub struct Plan {
    pub reload_hooks: bool,
    pub reload_config: bool,
    pub notices: Vec<(String, String)>,
}

/// What a batch of changes asks for (see `Plan`).
pub fn plan(batch: &Vec<Change>, manifest: &str, root: &str) -> (r: Plan)
    ensures
        r.reload_hooks == touches_hooks(batch@),
        r.reload_config == touches_config(batch@, manifest@),
        r.notices@.len() == batch@.len(),
        forall|i: int|
            0 <= i < batch@.len() ==> (#[trigger] r.notices@[i]).0@ == change_event(batch@[i])
                && r.notices@[i].1@ == relative_spec(change_path(batch@[i]), root@),
{
    let mut notices: Vec<(String, String)> = Vec::new();
    let mut i: usize = 0;
    while i < batch.len()
        invariant
            i <= batch@.len(),
            notices@.len() == i,
            forall|k: int|
                0 <= k < i ==> (#[trigger] notices@[k]).0@ == change_event(batch@[k])
                    && notices@[k].1@ == relative_spec(change_path(batch@[k]), root@),
        decreases batch@.len() - i,
    {
        let change = &batch[i];
        notices.push((String::from_str(change.event()), relative_to(change.path(), root)));
        i = i + 1;
    }
    Plan {
        reload_hooks: touched_hooks(batch),
        reload_config: touched_config(batch, manifest),
        notices,
    }
}

/// The report of a rebuild that changed something: the patch's summary
/// with the tree's counts, then a line per step, at most 25.
pub fn patch_report(patch: &Patch, stats: &str) -> (r: (String, Vec<String>))
    ensures
        r.0@ == crate::patch::summary_spec(patch@) + " ("@ + stats@ + ")"@,
        views(r.1@) == crate::patch::patch_lines(patch@, 25),
{
    let mut head = patch.summary();
    push_str(&mut head, " (");
    push_str(&mut head, stats);
    push_str(&mut head, ")");
    (head, patch.lines(25))
}


/// Where applying a batch of changes stands: reloading the hook scripts,
/// reloading the manifest, telling the hooks what changed, rebuilding, or
/// done.
#[derive(Debug, Clone, Copy, PartialEq, Eq, Structural)]
pub enum Stage {
    ReloadHooks,
    ReloadConfig,
    Notify,
    Rebuild,
    Done,
}

/// The first stage from `stage` on (in the order of `Stage`) that the
/// plan asks for: reloads only where the batch touched what they read.
pub open spec fn from_spec(stage: Stage, reload_hooks: bool, reload_config: bool) -> Stage {
    match stage {
        Stage::ReloadHooks => if reload_hooks {
            Stage::ReloadHooks
        } else if reload_config {
            Stage::ReloadConfig
        } else {
            Stage::Notify
        },
        Stage::ReloadConfig => if reload_config {
            Stage::ReloadConfig
        } else {
            Stage::Notify
        },
        s => s,
    }
}

/// The stage that follows `stage`, before the plan is asked.
pub open spec fn after_spec(stage: Stage) -> Stage {
    match stage {
        Stage::ReloadHooks => Stage::ReloadConfig,
        Stage::ReloadConfig => Stage::Notify,
        Stage::Notify => Stage::Rebuild,
        _ => Stage::Done,
    }
}

/// The first stage applying a batch planned as `planned` runs.
pub fn first_stage(planned: &Plan) -> (r: Stage)
    ensures
        r == from_spec(Stage::ReloadHooks, planned.reload_hooks, planned.reload_config),
{
    if planned.reload_hooks {
        Stage::ReloadHooks
    } else if planned.reload_config {
        Stage::ReloadConfig
    } else {
        Stage::Notify
    }
}

/// What went wrong in a stage, as logged and sent to Studio.
pub open spec fn failure_spec(stage: Stage, error: Seq<char>) -> Seq<char> {
    match stage {
        Stage::ReloadHooks => "hook reload failed: "@ + error,
        Stage::ReloadConfig => "project reload failed: "@ + error,
        _ => "rebuild failed: "@ + error,
    }
}

/// The line logged as a reload stage starts, `manifest` naming the
/// project's manifest; none for the other stages.
pub open spec fn announce_spec(stage: Stage, manifest: Seq<char>) -> Option<Seq<char>> {
    match stage {
        Stage::ReloadHooks => Some("hook scripts changed, reloading"@),
        Stage::ReloadConfig => Some(manifest + " changed, reloading"@),
        _ => None,
    }
}

/// The line logged as `stage` starts (see `announce_spec`).
pub fn announce(stage: &Stage, manifest: &str) -> (r: Option<String>)
    ensures
        crate::patch::opt_view(r) == announce_spec(*stage, manifest@),
{
    match stage {
        Stage::ReloadHooks => Some(String::from_str("hook scripts changed, reloading")),
        Stage::ReloadConfig => {
            let mut line = String::from_str(manifest);
            push_str(&mut line, " changed, reloading");
            Some(line)
        },
        _ => None,
    }
}

/// What applying a batch does once `stage` has run with `outcome`: the
/// next stage the plan asks for, or, where the stage failed, the text of
/// the failure, after which the batch is given up.
pub fn next_stage(stage: Stage, planned: &Plan, outcome: Result<(), String>) -> (r: Result<Stage, String>)
    ensures
        match outcome {
            Ok(()) => r == Ok::<Stage, String>(
                from_spec(after_spec(stage), planned.reload_hooks, planned.reload_config),
            ),
            Err(e) => r matches Err(m) && m@ == failure_spec(stage, e@),
        },
{
    match outcome {
        Ok(()) => {
            let next = match stage {
                Stage::ReloadHooks => if planned.reload_config {
                    Stage::ReloadConfig
                } else {
                    Stage::Notify
                },
                Stage::ReloadConfig => Stage::Notify,
                Stage::Notify => Stage::Rebuild,
                _ => Stage::Done,
            };
            Ok(next)
        },
        Err(e) => {
            let mut m = match stage {
                Stage::ReloadHooks => String::from_str("hook reload failed: "),
                Stage::ReloadConfig => String::from_str("project reload failed: "),
                _ => String::from_str("rebuild failed: "),
            };
            push_str(&mut m, e.as_str());
            Err(m)
        },
    }
}

/// Whether a rebuild's patch is sent to Studio: only when it changes
/// something.
pub fn publishes(patch: &Patch) -> (r: bool)
    ensures
        r == (patch@.len() != 0),
{
    !patch.is_empty()
}

} // verus!
