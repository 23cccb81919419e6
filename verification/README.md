# cmpr

Compression algorithms built from scratch in Rust, with proofs in
[Verus](https://github.com/verus-lang/verus) that they do what they say:
run-length coding, Huffman, LZ77, Deflate and gzip, an adaptive range coder,
rANS, LZMA and the Burrows-Wheeler transform.

`cmpr` is a placeholder name until the project gets a real one.

## Layout

| Path | What it is |
|---|---|
| `src/` | The library: every algorithm, verified |
| `src/codecs/` | One file per codec; each implements the `Codec` trait |
| `tests/` | Round-trip, interoperability and unit tests of the compiled code |
| `app/` | The `cmpr` command-line tool around the library |

## How the proofs are laid out

- Every format has a reader and a writer as spec functions over `Seq<u8>` or
  `Seq<bool>`: what a stream is, and what it decodes to or why it is refused.
  Executable functions are proved equal to them on all inputs.
- What holds of several functions together stands as a public proof function
  beside them. The central one says that decompressing what was compressed
  gives back the input, for every codec and for frames, gzip and `.lzma`
  files.
- The bit stream (`bits`), the range coder (`range`) and the numbers
  (`nums`) carry the models that the formats are built from.

## Adding a codec

1. Create `src/codecs/<name>.rs` and implement `Codec` with a new,
   never-reused `id`.
2. Export it from `src/codecs/mod.rs` and register it in `src/codec.rs`.

The round-trip tests, the benchmarks and the command line pick it up from
there.
