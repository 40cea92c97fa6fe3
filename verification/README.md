# cargo-wrap-comments

`cargo wrap-comments` rewraps Rust line comments (`//`, `///`, `//!`) to a maximum line width.
Consecutive comment lines with the same marker and indentation are joined, then wrapped greedily at
word boundaries; backtick code spans stay whole, list and heading markers get a hanging indent,
and fenced code blocks inside comments are left alone.

The formatting logic is a Verus-verified library under `src/`:

- `text` — whitespace classes, trimming, UTF-8 byte widths, string/char conversions
- `comment` — parsing a line into indent, marker and text; hierarchical markers; the join rule
- `tokenize` — splitting text into words, keeping backtick spans whole
- `wrap` — greedy wrapping behind a first-line and a continuation prefix
- `lines` — `str::lines`-style splitting and joining
- `process` — reformatting a whole text and recording the changes
- `reflow` — a change moves comment text between lines and never alters it
- `roundtrip` — the lines of the reformatted text are the processed lines
- `report` — the change listing and the standard-input outcome
- `config` — width resolution and the configuration-file search decisions (TOML via `toml`)

Each public function states its result exactly over specification functions on `Seq<char>`, and
the laws of the tool (no non-whitespace character lost, added or reordered; multi-word lines
within the width; code lines preserved; every change reported; and so on) are proved as public
proof functions. The
laws about the lines of the output *text* assume the input holds no carriage return, carriage
return, line feed sequence (the one case where a line would end in a carriage return that reading
the output back takes for part of its line ending); the laws about the processed lines hold for
every input. The word-sequence law assumes comment text without backticks whose only whitespace
is ASCII whitespace (a backtick span can join words from two lines into one).

`app/main.rs` is the command-line program: argument parsing (`clap`), glob expansion (`glob`),
reading and writing files, and printing.
