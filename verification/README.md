# browserfetch

A small fastfetch-style summary of the browser you use on a Linux desktop:
the default (or selected) browser, its engine and version, the active
profile, its extensions, and the OS and session, beside the browser's logo.
The extensions row reads like `Extensions: 12 (12 enabled, 0 disabled)`.

The logic is a library verified with Verus; the program around it only reads
files, environment variables and command output, and prints.

## Layout

- `src/text.rs`, `src/path.rs`: characters, lines, trimming, and `Path`-style
  components, joins, file names and extensions.
- `src/sort.rs`: a stable sort and `dedup_by` with their contracts, and the
  orders used (code-point order on text, pairs).
- `src/json.rs`: JSON values as plain data and the lookups made on them.
- `src/util.rs`: `Exec=` line parsing, terminal display width (through
  `unicode-width`), command output cleanup.
- `src/browser.rs`: desktop entries, selectors, default-browser detection, the
  list of installed browsers and completion candidates.
- `src/extensions.rs`: profile roots and their order, Firefox `profiles.ini`,
  Chromium profiles, active profiles, and the extension lists of both.
- `src/logo.rs`: cleaning up `chafa` output, the text logo, icon lookup.
- `src/os.rs`: `os-release` and session summaries.
- `src/output.rs`: rows, truncation, the extension tree and the final layout.
- `app/main.rs`: the command itself (file system, processes, environment).
  For `--list` it looks on the `PATH` for these programs, besides the
  desktop entries: `firefox`, `chromium`, `google-chrome`, `brave`,
  `vivaldi`, `microsoft-edge`, `opera` and `epiphany`.
- `tests/`: tests of the library on concrete values.

Each module states its behaviour over spec functions; the `law_*` proof
functions state properties that hold across calls, such as the order of the
browser list or that truncated text never exceeds its width.
