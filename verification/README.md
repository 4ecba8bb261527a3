# lz4rip

LZ4 block compression and decompression, written in Verus: every function
of the library carries a contract that Verus proves.

## What is proved

- `format`: a mathematical model of the LZ4 block format. `lz4_decode`
  says what a block decodes to (or which error it gives), for an output of a
  given capacity and a dictionary in front of it. `conformant` says when a
  block is laid out as the format requires (matches start at least 12 bytes
  and end at least 5 bytes before the end).
- `decompress`: the decoders return exactly what `lz4_decode` says, for
  every input; they never panic.
- `greedy`: the block that the compressor writes, as a function of its
  input: the greedy hash-table search (probes with a growing skip, matches
  extended backwards and forwards, the table's entries as they change),
  written over the table's entries and the format's sequence encoding.
- `compress`, `compressor`: the compressors report an error exactly when the
  output is shorter than `get_maximum_output_size` (and then write nothing),
  and otherwise write exactly the block that `greedy` describes: a
  conformant block of at most that size that decodes back to the input, with
  the compressor's dictionary in front of it. A reused compressor's contract
  says how its table and stream offset change from call to call.
- `dict`: `DictTrainer` keeps its samples within a budget of eight
  dictionaries, and `train` returns exactly the dictionary that the COVER
  selection (`cover_dict`) describes.
- `laws`: round trips (with and without dictionaries, size-prepended, of
  length extensions, after a preamble), the dictionary split between history
  and output, that a dictionary shorter than four bytes is ignored, and that
  decoding shows nothing of the output buffer's earlier contents.

## Layout

- `src/`: the verified library; `src/block.rs` gathers the public API.
- `tests/`: tests run against the compiled library, including cross-checks
  against the C implementation of LZ4.
- `app/`: JavaScript bindings and displayable error types.
