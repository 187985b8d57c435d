# clipring

Terminal clipboard history over OSC 52, as a verified Verus library plus a
thin command-line program.

- `src/` — the library, every function verified:
  - `base64` — RFC 4648 codec (padded encoder, lenient decoder);
  - `osc52` — sequence framing, tmux/screen passthrough, extraction;
  - `ring` — the history ring: dedup-by-promotion, pinning, eviction;
  - `jsonl`, `jsonl_laws` — the flat JSON record codec and its round trip;
  - `store` — state directory, history records and history text, with the
    save/load round trip;
  - `textutil`, `picker` — control-safe previews, sizes, ages, menu rows,
    choice parsing;
  - `cli` — argument parsing, emit options, status lines and reports;
  - `numtext`, `whitespace`, `text` — decimal/hex text, Unicode trimming,
    and the few `std` string calls the library trusts.
- `app/main.rs` — argv, environment, stdin/stdout, `/dev/tty`, the clock and
  the history file (atomic temp-file + rename saves).
- `tests/` — behaviour tests per module.
