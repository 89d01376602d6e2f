# roflux

One way syncing from an editor into Roblox Studio: files on disk are the truth,
Studio only receives. This crate holds the logic of that tool, written in Verus,
with contracts that Verus proves. Where the result rests on the project's
hook scripts (the `Transform` trait), a contract says what holds of every
answer they give. The contracts of the project walk give the tree it builds
as a function of those answers: which entries of a folder are walked and in
what order, what each file and folder makes, what is hoisted under a
`$Parent`, and how services, top-level entries and hoisted nodes are placed,
sorted and numbered. The list of files read along the way is not stated.

## Layout

- `src/` — the verified library.
  - `text`, `paths`: string and path helpers over `Seq<char>` models.
  - `json`: a JSON value model (`Json` / `JsonV`) and the parse calls into
    `serde_json` and `toml`, with their results named.
  - `project/`: how files become instances (`classify`), `.meta.json` and
    `.inst.json` declarations (`meta`), and the project walk and manifest
    (`scan`).
  - `ir`: the instance tree; `patch`: diffs between trees and the wire form of
    a patch; `literal`: Luau literals for values.
  - `compile/`: type definitions, editor settings, the sourcemap.
  - `sync/`: the change backlog and its cursor laws, the message protocol,
    watch planning, and the server's answers to the plugin.
  - `hooks/`: what build scripts see: module paths, globbing, hashing and
    base64 (calls into `globset`, `sha2` and `base64`).
  - `cli`, `log`: argument resolution and log lines.
- `tests/` — tests of the library on concrete values.
- `app/` — the program around it: command line, disk and network I/O, the
  Luau runtime for build scripts, and place file output.
