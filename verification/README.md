# grug

Expand vimgrep-style lines (`path:line[:col][:content]`) into editable hunks
framed by `@@@ path start,len hash @@@` headers, preview edited hunks as line
diffs, and write edited hunks (or raw grep lines) back to their files.

Layout:

- `src/` — the library, verified with Verus:
  - `text.rs`: whitespace trimming, searching, unsigned number parsing and
    rendering, joining lines;
  - `grepline.rs`: reading grep lines;
  - `hunk.rs`, `hunk_parse.rs`: hunks, their hash, their wire format, and
    reading a stream of them back;
  - `expand.rs`: merging requested lines into hunks;
  - `write.rs`: splicing hunks bottom-up and replacing single lines;
  - `preview.rs`: line diffs of a region against an edited body;
  - `group.rs`: grouping items by file;
  - `errors.rs`: the error type.
- `app/` — the command line: argument handling, stdin, files, threads.
- `tests/` — tests of the library.
