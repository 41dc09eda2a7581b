# dupscanner

Finds duplicate files and removes them safely, from the terminal.

Files are grouped by size, then by a hash of their first 64 KiB, then by their
full SHA-256. Each group gets a keeper: the copy with the fewest signs of being
a copy, then the shallowest, then the oldest. Nothing is deleted without a
plan, and no plan takes the last copy of a group.

Paths are read by Unix rules, with `/` between their pieces, on every platform.

## Layout

- `src/` is the library, verified with Verus. It reads and writes nothing:
  what it needs to know of the disk, the clock and the user comes in as plain
  values, and what is to be done goes out as plain values. `src/lib.rs` lists
  the modules. What is believed of other crates stands in `src/outside.rs`.
- `app/` is the program around it: the command line, the threads, the file
  system, the database and the terminal.
- `tests/` runs the library on concrete values, with the other crates linked.

## What is proved

- Files with the same content end in one group, and the files of a group are
  of one size and have one digest; a file whose size is unique is never read,
  and no file is read twice for the same hash.
- After any run of calls a group holds at least two files, each of which was
  handed in and has the group's hash, and no path stands in the groups twice.
- Which copy is kept does not depend on the order the files are listed in.
- A walk reports every file within the size limits, once and in order.
- An accepted plan leaves every group a copy and deletes only what was asked
  for; nothing is deleted before a plan was confirmed.
- A file deleted while a scan runs, under whatever name it had by then, is in
  no later snapshot; one that was renamed and not deleted stands in every
  later snapshot of its group, under its last name. Marks survive the
  snapshots.
- Paths are compared by their components, however they are written.
- No rule for marking marks every copy of a group.
- A backup that is restored gives back the original path and leaves the store
  as it was; backups never share a name.
- Stored groups come back as they were, in whatever order their rows are read.

Each of these stands in `src/` as a `pub proof fn` or in the contract of the
function it is about.
