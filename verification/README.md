# editor_input

The editing core of a text input: multiple selections, an undo history,
grapheme-aware caret movement, comment toggling, automatic indentation,
bracket matching, code folding and literal search. Every function in `src/`
carries a `requires`/`ensures` contract that Verus proves.

## Layout

- `src/` — the verified library.
  - `text.rs`, `utf8_facts.rs`, `grapheme.rs`: the text as a rope of UTF-8
    bytes, line and character offsets, grapheme cluster boundaries.
  - `selection.rs`, `selection_set.rs`: selections and their normalization
    (grapheme-aligned, ordered, nonoverlapping, unique identities).
  - `change.rs`, `undo_manager.rs`: recorded changes and the undo/redo
    history with transactions, coalescing and atomic batches.
  - `editor.rs`: the editor state, single edits, undo and redo, and search.
  - `multi_edit.rs`, `typing.rs`, `occurrences.rs`: edits at every selection,
    typing, Enter and indentation at many carets, select next / all
    occurrences and caret toggling.
  - `comment.rs`, `comment_toggle.rs`, `comment_host.rs`,
    `comment_round_trip.rs`: line and block comment toggling and the laws
    that toggling twice gives the text back.
  - `syntax.rs`, `indent.rs`, `folds.rs`, `parse_schedule.rs`: queries over a
    syntax tree (bracket pairs, indentation after Enter, fold ranges) and the
    decisions of when to parse.
  - `search.rs`, `search_panel.rs`: literal search with whole-word filtering,
    match navigation and the search panel's focus and actions.
- `tests/` — tests run against the compiled library.
- `app/` — glue that converts a tree-sitter parse into the library's syntax
  tree and checks it before handing it to the library.

## Outside crates

The library calls `ropey`, `unicode-segmentation`, `regex` and `aho-corasick`
through small trusted wrappers, each with a doc comment that says what its
contract claims of the outside function.
