//! gguf-chisel — surgical metadata editing for GGUF model files.
//!
//! A GGUF file is a head (metadata and tensor descriptors) followed by tensor
//! data. The library reads heads, edits their metadata, and plans how an edited
//! head is written back so that the tensor data never moves. All of it is pure:
//! bytes and text in, bytes and text out.
//!
//! - [`types`] — the GGUF data model (value types, tensors, ggml type table)
//! - [`sizes`] — how large blocks, tensors and types are, number by number
//! - [`wire`] — the format of a head, and that writing and reading it agree
//! - [`reader`] — parser for the file head (never reads tensor data)
//! - [`encoding`] — which byte of a head holds what, and which bytes are refused
//! - [`writer`] — head serializer, in-place fit planner, rewriter, sample builder
//! - [`layout`] — what writing a head does to the file around it
//! - [`sampled`] — that the sample file is sound
//! - [`patch`] — edit operations: `set` / `rm` / `rename` and value coercion
//! - [`editing`] — what edits store, and what texts are as values
//! - [`documents`] — what each section of a patch document asks for
//! - [`template`] — chat-template presets and the Jinja-subset linter
//! - [`nesting`] — that templates whose blocks nest have no errors
//! - [`presets`] — that the preset templates have none
//! - [`linting`] — what is an error of a template and what a warning
//! - [`places`] — where the linter points
//! - [`json`] — JSON parser and encoder for `dump` / `apply`
//! - [`reparse`] — that JSON which is written is read back
//! - [`notation`] — how JSON text is understood and laid out
//! - [`numerals`] — what the texts of numbers stand for
//! - [`dump`] — the JSON dump, the `show` view and size formatting
//! - [`dumped`] — that a dump tells the whole head
//! - [`display`] — how sizes and values are shown, and what a view lists
//! - [`verify`] — structural verification of offsets, alignment and keys
//! - [`soundness`] — what a clean report of the verifier means
//! - [`accounts`] — what is said of edits, of files and of errors in JSON
//! - [`cli`] — argument parsing, and what each command prints and decides
//! - [`commands`] — what command lines are understood as, and their exit codes
//! - [`reports`] — what is printed, and which command lines are refused
//! - [`float`] — decimal text of floating-point numbers, from bit patterns
//! - [`exact`] — that printed numbers are read back exactly
//! - [`rounding`] — that the nearest number is taken, and what is not finite
//! - [`bignum`] — the integers of any size behind [`float`]
//! - [`text`] — characters, digits and pieces of text

pub mod accounts;
pub mod bignum;
pub mod cli;
pub mod commands;
pub mod display;
pub mod documents;
pub mod dump;
pub mod dumped;
pub mod editing;
pub mod encoding;
pub mod exact;
pub mod float;
pub mod json;
pub mod layout;
pub mod linting;
pub mod nesting;
pub mod notation;
pub mod numerals;
pub mod patch;
pub mod places;
pub mod presets;
pub mod reader;
pub mod reparse;
pub mod reports;
pub mod rounding;
pub mod sampled;
pub mod sizes;
pub mod soundness;
pub mod template;
pub mod text;
pub mod types;
pub mod verify;
pub mod wire;
pub mod writer;
