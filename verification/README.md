# exomizer

De-/crunching in the "raw" mode of Exomizer, the compressor for 8-bit
machines. Verified with Verus: the decrunchers, the stream writer, the
encoding tables and the choice of each table from integer statistics, and
the match finder, whose contract states which sequences it offers at each
position and that, at a position that may be copied from, each of them
copies bytes that agree.

## Layout

- `src/simple/`: the small decrunchers for the protos 9, 13, 25, 29, 41, 45,
  57 and 61 (`dynamic` takes the proto as a value, `generic` as a constant).
  `common` models the bit stream and the decrunch loop and states what a
  decrunch gives; `readback` proves that they decrunch what the cruncher
  writes.
- `src/original/`: the decruncher for every proto (`exodec`, `decrunch`),
  the options of crunching and decrunching, the encoding tables and their
  text form (`encoding`), the bit writer (`bitstream`), the stream writer
  (`stream`), the match finder (`matches`), the choice of a table from the
  counts of values (`optimal`), and the proofs that written streams
  decrunch back to their data (`roundtrip`).
- `app/`: the parts of crunching that weigh sequences by their cost in
  fractional bits (the search for the best path, and the statistics that
  weigh each offset by the cost of its length), logging, and the error
  types with their `Display`.
- `tests/`: tests of the library.
