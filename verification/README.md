# grep_redo

A grep-like text search whose logic is a Verus-verified library.

- `src/` — the verified library:
  - `text.rs`: the character-level model (lines, occurrences, marking
    spans red, UTF-8 byte offsets, decimal numbers) and its exec code;
  - `lib.rs`, `Controller.rs`, `search.rs`: the simple front end — a
    `Config` parsed from the arguments and the search it runs (keep
    matching lines, mark, number, prefix);
  - `cli.rs`, `matcher.rs`, `engine.rs`, `encoding.rs`: the full front end —
    line selection (fixed strings, case folding, regular expressions,
    whole words, whole lines, inversion), file filters, context lines,
    output modes, streaming steps, and decoding/encoding through
    `encoding_rs`.
- `app/` — the program: command-line parsing with clap, file and directory
  reading (glob, walkdir, rayon), and printing.
- `tests/` — tests of the library on concrete inputs.

Outside crates are reached only through small trusted wrappers whose
contracts name what the crate computes (`regex`, `glob`, `encoding_rs`, and
the Unicode case mappings of `std`).
