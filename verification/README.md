# minigit

A small content-addressed version store in the manner of git, written in
Verus: blob, tree and commit objects named by the SHA-1 of their stored
form and kept zlib-compressed, an index of staged files, and the decisions
behind `add`, `commit`, `status`, `checkout`, `branch` and `cat-file`.

## Layout

- `src/` is the verified library. Every function there carries a contract
  that Verus proves; the repository is modelled as an `ObjectStore` (object
  names mapped to compressed files) and plain values, so the library does
  no file I/O.
  - `object/`: the object format, the store, blobs and commits.
  - `commit/`: building a tree from staged paths and saving it.
  - `common/`: reading trees and commits back, listings for `cat-file`.
  - `index/`: the index and its text form.
  - `refs/`, `add/`, `commands/`: HEAD and branches, staging, and the
    planning of each command.
  - `text.rs`: UTF-8, search, decimal and whitespace helpers.
- `tests/` runs the library on concrete values.
- `app/` is the command-line program: it reads and writes the files under
  `.minigit`, hands their contents to the library and writes back what it
  returns.

SHA-1 and zlib come from the `sha1` and `flate2` crates; the few functions
that call them are marked `#[verifier::external_body]` and say in their doc
comments what their contracts assume.

The proved laws include: hexadecimal text and object encodings read back
unchanged; saving an object succeeds and returns a name that `load`
accepts, under which the object reads back; a tree built from staged paths
keeps every staged file exactly once. That a saved tree, and the tree of a
commit, read back as the files staged is proved on the premise that no two
different trees below it (nor the commit) share a SHA-1, and that staged
hashes are written as object names are (forty lower-case hexadecimal
digits).
