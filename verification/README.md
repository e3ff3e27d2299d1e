# wally

The core of a package manager for Roblox, as a library that is verified with
[Verus](https://github.com/verus-lang/verus).

- `src/workspace.rs` loads workspaces: what members inherit, which names may not
  occur twice, and where members are found.
- `src/resolution/` chooses a version for every dependency of a package or of a
  workspace. What the sources answer is recorded in a `PackageSourceMap`; where
  an answer is still missing, resolution says which one.
- `src/installation/` plans what an installation writes: links, project files
  and downloads.
- `src/commands/` holds what the `install`, `update` and `publish` commands
  decide.
- The other modules hold names, versions, requirements, manifests, paths, and
  the ordered maps and sets that all of these are kept in.

Functions named `law_...` state what holds across several functions.

The library neither reads nor writes files and opens no connections. `app/` does
that: it reads manifests, asks registries, and carries out plans. What the
library takes on trust about other crates (`semver`, `pathdiff`, `serde_json`,
`ubyte`, `url`) and about `std` is stated at the functions that are marked
`#[verifier::external_body]`.
