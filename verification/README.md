# subword_navigation

Cursor movement, selection and deletion by subwords — camelCase humps, snake_case
parts, digit runs and separator-delimited words — for the Zed editor, written in
Verus with its behaviour stated in contracts and proved.

Texts are UTF-8 strings addressed by byte offsets; the model in `src/text.rs`
describes a text by its characters, their UTF-8 encoding (vstd's `encode_utf8`)
and the char boundaries of that encoding.

- `src/text.rs` — characters around an offset, char boundaries, stepping by one character.
- `src/char_class.rs` — what kind of character a character is (separator, digit, case).
- `src/lines.rs` — line starts and ends, leading and trailing whitespace.
- `src/boundary.rs` — subword boundaries and where a move to the left or right lands.
- `src/selection.rs` — selection anchors and cursors.
- `src/remap.rs` — edits and where an offset lands once they are applied.
- `src/commands.rs` — the six editor commands.
- `src/error.rs` — the errors and their messages.
- `app/lib.rs` — the Zed extension around the library.
