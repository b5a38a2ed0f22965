# rusty_git

A small git: an object store (blobs, trees and commits, named by the
SHA-1 of their bytes and stored zlib-compressed under `.git/objects`),
with the commands `init`, `hash-object`, `cat-file`, `ls-tree`,
`write-tree`, `commit-tree`, `status` and `add`.

The library under `src/` is written in Verus: each function states what it
computes in its `requires` / `ensures`, and Verus proves it.

- `text`, `kind`, `encoding`: numerals, object kinds, hexadecimal names.
- `digest`: SHA-1 (`sha1`) and zlib (`flate2`), the outside calls that the
  library trusts, each with the contract it is believed to meet.
- `objects`: encoding, naming, storing and reading back objects, and finding
  an object by an abbreviated name.
- `tree`: building a directory's tree (tracked entries sorted as git sorts
  them) and listing a stored tree.
- `cat`, `commit`, `repo`, `index`, `cli`: the logic of the commands.
- `laws`: properties that span functions, such as a stored tree listing
  back every entry written into it.

`app/` is the command-line program: it parses arguments with `clap`, reads
and writes files, reads the clock, and hands plain values to the library.
`tests/` exercises the library on concrete values.
