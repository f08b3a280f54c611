# vaayu

A modal terminal text editor whose editing logic is a library verified with
Verus. `src/` is the library: its public functions carry `requires` /
`ensures` contracts, and Verus checks every function there (helpers
included) except the trusted wrappers described below. `app/` is the
program around it: the terminal loop, file and process I/O, threads, and
the configuration file.

## What the library proves

- **Buffers** (`buffer`, `rope`): text edits, undo/redo/commit over a
  history model, loading and saving (UTF-8, UTF-16, Latin-1; line endings;
  BOM), folds shifted through edits, and char-range edits from a language
  server applied in order. Laws: undo restores an edit, redo undoes an
  undo, a reload clears the history, save then load gives the text back,
  format names parse back.
- **Motions, Normal and Insert mode** (`motion`, `normal`, `insert`,
  `autopairs`, `editor`): every motion's destination, Normal mode's keys,
  the Insert-mode key plan, Enter/Backspace/Delete by grapheme, Tab,
  leaving Insert mode, autopairs, auto-indent and folds.
- **Ex commands** (`command`, `substitute`, `ex`): ranges and addresses,
  what a command line asks for, `:set` arguments, `:s` (an empty pattern
  reuses the last search) applied as one undo step, `:earlier`/`:later`,
  the unsaved-changes check of `:q`, and what a write, reload or quit
  leaves for the program to perform; `:cfar`; the command line's keys and
  history. Laws: `:later n` undoes `:earlier n`, and `:s` is one undo step.
- **File URIs, search hits, clipboard** (`files`, `jobs`, `clipboard`): a
  path as a `file://` URI and back; the hits of a line of `rg --json`
  output; the OSC 52 sequence that copies text over a remote session.
- **Language servers** (`language`, `lsp`, `lsp_results`, `completion`):
  UTF-16 columns, request methods and parameters, stale requests and
  replies, what each reply kind makes the editor do (links, lenses, inlay
  hints, highlights,
  locations, code actions, text and workspace edits, hover and signature
  text), diagnostics per server and file, progress, and completion
  filtering and acceptance.
- **Git** (`gitdiff`, `git_tools`, `gitworkspace`, `conflict`): the gutter
  from a line diff, word spans, status, blame and hunks, conflict blocks.
- **File tree, main loop, Markdown** (`filetree`, `mainloop`, `markdown`):
  the tree's rows (ignored paths and dotfiles hidden, siblings ordered
  across the whole tree) and keys (two presses to delete or trash), how long the
  loop waits for a key, and the preview's lines.

## What is trusted

Calls into outside crates (ropey, regex, fancy-regex, similar,
unicode-segmentation, unicode-width, pulldown-cmark, serde_json, url,
base64) and a few
std functions sit behind small `#[verifier::external_body]` wrappers. Each
states what the crate's source shows; where the result takes pages to
state (a regex match, a diff), it is named by an uninterpreted spec
function, and the contracts above it are exact over that name.

## Layout

- `src/` the verified library, one module per area above.
- `tests/` tests of the library on concrete values.
- `app/` the terminal editor (`vaayu FILE`), Ex mode on standard input
  (`vaayu -e FILE`), and file previews and git reports (`--preview`,
  `--git-status`, `--hunks=FILE`, `--stash`).
