# email_analyser

Reads Apple Mail `.emlx` files from one or more folders and prints aggregate
statistics: message counts and sizes per sender, per year, per size bucket and
per folder, as a console bar chart or a Markdown document.

The library under `src/` is verified with Verus:

- `emlx` — the `.emlx` container, header unfolding, RFC 2047 encoded words
  (base64 and quoted-printable), sender addresses and `Date:` normalisation;
- `aggregate` — folder labels, size buckets, date ranges and the tallies a
  report is built from;
- `report` — the report, its builder and human-readable sizes;
- `render` — the console, fixed-width text and Markdown renderings;
- `progress` — output width and the progress lines;
- `name_map`, `sorting`, `text` — the small data structures and text helpers
  the rest is written with;
- `external` — the calls into `encoding_rs`, `chrono` and `std` whose
  contracts are trusted rather than proved.

`app/main.rs` is the command-line program around it: argument parsing,
walking the directories, reading files and writing the output.
