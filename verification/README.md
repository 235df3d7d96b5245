# annot

Line-anchored annotations kept outside a codebase.

An annotation belongs to a range of lines of a source file and is kept in a log
under `.annot/`, which mirrors the source tree: the annotations of
`src/parser.rs` lie in `.annot/src/parser.rs.jsonl`. As the file changes, a sync
brings each annotation along: lines that only moved are followed by the diff
between the two contents, lines that were edited are found again by their
hashes, and an annotation whose lines are gone is orphaned, never lost.

The library (`src/`) is written in Verus. What it does is stated in the contracts
of its functions and proved; what holds across functions is stated by the public
proof functions beside them.

- `clock`, `id`: timestamps and identifiers
- `model`: records, anchors, kinds and states
- `text`, `strings`, `segments`, `order`: text, numbers, splitting, sorting
- `path`: file paths as components
- `lines`: the lines of a file and their hashes
- `hunks`: what changed between two contents, and where a span of lines went
- `rematch`: finding lines again by their hashes
- `sync`: anchoring records and bringing them to a new content
- `log`, `fold`: the lines of a log, and what they add up to
- `store`, `compact`: where logs lie, and how they are compacted
- `context`: annotations as tagged blocks within a token budget
- `commands`: the arguments and the output of the commands

The program (`app/`) reads and writes files, locks and git objects, and prints.
It hands the library plain values and does what the library decides.

Hashing, object ids, diffing and identifiers come from the crates `gix`,
`imara-diff` and `ulid`. The functions that call them are marked
`external_body`; their contracts, which are not proved, say what is relied on.
