# pxml

A parallel, StAX-style (pull) XML reader for documents that hold many uniform,
order-independent records under one container, such as
`<trades><trade>...</trade>...</trades>`. A cheap sequential scan frames the
records and captures the context that they share; the records are then read in
parallel, each by itself. A resumable framer does the same for documents that
arrive in chunks, in bounded memory.

The library under `src/` is written in Verus and verified.

- `grammar.rs` says, as mathematics, what a scan of a document finds: the records
  as byte spans, the shared context, or the refusal. `scan.rs` is the scanner,
  stated against it.
- `framer.rs` and `prolog.rs` hold the resumable framer and its machine,
  `stream.rs` the producer that packs records into batches, `chunking.rs`,
  `growth.rs`, `spans.rs`, `declarations.rs`, `equivalence.rs` and
  `interleaving.rs` the proof that cutting a document into chunks changes nothing,
  in whatever order the framer is fed and drained, and that streaming and scanning
  agree.
- `cursor.rs`, `parse.rs`, `event.rs` and `reference.rs` read the events of a
  record, with text runs merged and references resolved.
- `document.rs` holds the entry points and the drivers over records.
- `placement.rs`, `insulation.rs`, `namespaces.rs`, `refusals.rs`, `doctypes.rs`,
  `shifting.rs` and `nesting.rs` state laws of scanning; `tree.rs` says over the
  element tree what the records are.

What is taken on trust stands behind functions marked
`#[verifier::external_body]` and in `assume_specification` items: the byte searches of `memchr`, the reader and the
unescaping of `quick-xml`, the parallel iterators of `rayon`, the decompression of
`zstd`, and a few conversions of the standard library. Each says in its comment
what is claimed.

`tests/` runs the library. `app/` is ordinary Rust around it: documents opened by
path and memory-mapped, the streaming pipeline over threads, the standard error
traits, and a benchmark.
