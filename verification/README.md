# gguf-chisel

Surgical metadata editing for GGUF model files: patch keys and fix chat
templates of a 40 GB file by writing a few kilobytes, without moving a byte of
tensor data.

- `src/` is the library, written in Verus: the GGUF codec, the in-place fit
  planner, edit operations, the JSON codec, the chat-template linter, the
  structural verifier, decimal text of floating-point numbers, and what each
  command prints and decides. Every function carries a contract, and Verus
  proves it.
- `app/` is the `gguf-chisel` program around it: arguments, files, output.
- `tests/` runs the library.

## What is proved beyond the contracts

| Where | What |
|---|---|
| `wire` | a written head is read back; what can be read of written bytes is what was written; a head that was read is written back; the first bytes of a file decide its head; every error names an offset inside the bytes, or their end |
| `layout` | an in-place edit ends exactly at the data offset, reads back with the edited metadata, and leaves every byte of tensor data as it was; pads never accumulate; planning what was read back of a planned head gives that head again, byte for byte; reserved bytes are headroom; growth within the headroom stays in place; a rewrite carries the data verbatim |
| `patch` | assignments are read back, other keys are untouched, existing keys keep their type, protected keys never change, patch documents apply in a fixed order |
| `json` | every error names the line and column of a position in the text, or just past its end |
| `exact`, `reparse` | printed doubles are read back bit for bit; JSON that is written is read back; so is every dump |
| `soundness` | a file verifies without errors exactly when it is structurally sound |
| `template`, `nesting`, `presets` | findings point into the template; a template whose blocks nest has no errors; no preset has any; the presets are the listed ones, under distinct names |
| `cli` | a dry run writes nothing, and its exit code says what would happen |

## What is trusted

Three functions of the standard library, by their documentation:
`String::push` and `String::from_utf8` (`src/text.rs`), and `char::from_u32`
(`src/json.rs`).

Floating-point values are held as their bit patterns, and all conversions
between them and decimal text are exact integer arithmetic.
