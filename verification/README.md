# journald_forensic

Reads systemd `.journal` files over plain byte slices and reports the signals
that a tampered journal shows. The library under `src/` is verified with Verus:
every function states its result in its contract and is proved free of panics.

- `binary` — file magic, file header and object headers (little-endian, every
  length checked; malformed input is a `JournalError`).
- `carver` — finding journal magic and Entry object headers in raw bytes.
- `entry`, `cursor` — entries and their well-known fields; cursor strings, with
  the proof that parsing reads back every cursor's text.
- `integrity` — sequence gaps, timestamp regressions, truncation, ONLINE state,
  with laws relating the reports to the input (for instance, the gaps of a
  strictly increasing sequence count every missing number).
- `arena` — the walk over a file's objects that yields entries and fields, and
  the search and field-name views of them.
- `text`, `error` — digits, text and the error type.

`app/` is the `jd4n6` command line (`timeline`, `fields`, `search`): file reading,
JSON output and the serde/thiserror copies of the library's types.
