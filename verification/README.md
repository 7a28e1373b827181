# toktoktok

A trainer for byte-pair-encoding vocabularies whose output loads in
`tiktoken`. The library in `src/` is written in Verus: each function states
what it computes in `requires` / `ensures`, and Verus proves it.

Layout:

- `src/hardcoded.rs` — the 256 base bytes and the 1,161 hardcoded merges
  (digits, runs of spaces and newlines, operators), and merging bytes with a
  pair table until nothing changes.
- `src/chunk.rs` — a chunk of tokens linked into segments (one per
  document run), merges applied in place, and pair counting.
- `src/reservoir.rs` — the memory-bounded reservoir of chunks, the batcher
  that joins documents with sentinels, and tokenizing batches of lines.
- `src/tokenizer.rs` — splitting text with the GPT-4 pattern, with special
  tokens cut out first.
- `src/trainer.rs` — the trainer: choosing the most frequent new pair,
  recording merges, rebuilding token bytes, warm start and output.
- `src/tiktoken.rs`, `src/warm.rs`, `src/output.rs` — the file format
  (base64 bytes and decimal rank per line), reading it back, and the tables
  built from a loaded vocabulary.
- `src/maps.rs` — the hash maps of `ahash` as Verus sees them.
- `app/` — the command-line program: YAML configuration, reading text and
  parquet files on worker threads, reservoir sampling, progress output and
  writing files.

Proved laws include: loading the lines written for a vocabulary gives the
same vocabulary back; training only appends tokens, never changing earlier
ones; no trained token repeats the bytes of an earlier one; the hardcoded
table is consistent with the bytes of its tokens; documents joined with
sentinels never share a pair.
