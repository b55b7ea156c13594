# gix_motor

The rules of writing git packs, verified with Verus: which objects an index lists, which bases a thin
pack lacks, how a pack is completed and published, and the limits on files, memory and temporary files
that hold on small systems such as Motor OS.

- `src/` is the library. What its functions do is stated in contracts that Verus proves. Hash functions, the clock,
  paths and fallible allocation are called through items whose contracts are stated beside them and
  believed.
- `tests/` runs the library on concrete values, with the real hash functions.
- `app/` does the input and output: temporary files, memory maps, progress, threads. Codecs of pack
  entries and the delta tree itself are parameters of it (`app/engine.rs`).

## How it fits together

Work that alternates with input and output is a state machine: `traverse::ExternalBases`,
`complete::Completion`, `bundle::Publication` and `temp::Creation`. Each has a `step` that takes an event
and returns an action. The spec function beside it says, for every event, what the next state and the
action are. `app/` performs the actions and reports the events.

## What is proved of the whole

- An index lists the objects of its pack in the order of their ids, none twice (`index`).
- The bases that are appended to a thin pack are those that were looked up and did not come with it,
  and every object that was needed rests on a whole object in the end (`thin`, `index`).
- A completed pack is a header that counts all objects, the entries that were received, the entries of
  the bases, and the hash over all of that (`completed`).
- A pack is moved into place only after the mark that keeps it, and an index only after its pack
  (`bundle`).
- Limits on bytes, files and extents hold over any sequence of reads, writes and seeks (`commitgraph`,
  `mmap`, `limited_file`).
- Every base that is used or appended has been seen to have the id that it was looked up by
  (`traverse`, `completed`).
