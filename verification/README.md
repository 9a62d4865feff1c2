# writ

The core of a Markdown editor, without its window: the text with its history and
its block structure, editing that knows about lists, quotes, task boxes and code,
completing GitHub references, reviewing changes hunk by hunk, and deciding what is
drawn.

- `src/` is the library, verified with Verus.
  - Text: `text`, `lines`, `space`, `number`, `sort`, `grapheme`.
  - Structure: `tree` (parsed by `tree-sitter-md`), `marker`, `line_scan`,
    `outline`, `context`.
  - Editing: `buffer`, `cursor`, `state`, `edit`, `checkbox`, `tab`;
    what these keep to line by line: `toggle`, `cycle`.
  - References: `github`, `autocomplete`, `complete`, `links`.
  - The editor: `editor`, `action`, `keys`, `dispatch`, `session`, `diff`, `review`,
    `snapshot`, `view`, `popup`.
- `app/` runs the library in a window: files, the clipboard, GitHub, and measures.
  The window toolkit is behind the traits of `app/host.rs`.
- `tests/` run the library with the outside crates.

Offsets are byte offsets into UTF-8. Contracts speak of models: every type that a
contract mentions has a view, and every operation a spec function that says what it
makes of that view. Proof functions named `law_..` state what holds across
operations.
