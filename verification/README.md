# zstandard

The core of a Zstandard codec, verified with Verus: frame and block headers,
the entropy coders, literals sections, sequence sections and their execution.
Every function carries a contract that says what it returns on every input, and
the laws that relate functions (what a reader gives back of what a writer wrote,
what every operation keeps) are public proof functions next to the code.

## Layout

- `src/frame.rs`, `src/frame_laws.rs`, `src/block.rs`: headers, and the measuring
  of frames without decoding them.
- `src/entropy/`: bit streams (`bits`, `bitstream`), the finite-state coder
  (`spread`, `ncount`, `normalize`, `fse`, `fse_stream`, `fse_cost`) and the
  Huffman coder (`huff_*`).
- `src/literals.rs`: literals sections.
- `src/sequence/`: codes, tables, sections, repeat offsets, cost estimates, and
  decoding and executing in one pass.
- `src/outbuf.rs`, `src/decode_out.rs`: where encoders and decoders write.
- `src/io.rs`: the bookkeeping behind stream adapters; `app/` drives it with
  `std::io`.
- `src/fuzz.rs`, `src/fuzz_config.rs`, `src/fuzz_plan.rs`, `src/options.rs`:
  entry points for fuzzing and the reading of fuzz inputs.

The model underneath everything is `entropy::bits::Bits`: a number and how many
bits it has. Writing pushes a field on top, reading takes it off, so a stream is
read backwards from where it was written last.
