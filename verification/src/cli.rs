//! Command-line interface: argument parsing, help texts, and what each command
//! prints and decides. Reading and writing files is left to the program around
//! this library; every function here takes what was read and says what to print
//! or to write.

use crate::dump::{fmt_size, json_of, size_text, value_json};
use crate::json::{
    document, encode, json_error_text, lemma_obj_view, pairs_view, parse, render, Json, SpecJson,
};
use crate::layout::law_plan_ends_at_data_start;
use crate::patch::{
    all_ok, apply_all, apply_ops, document_ops, lemma_all_ok_err, lemma_all_ok_step, ops_from_json,
    ops_view, parse_set_arg, parse_size, set_op, size_of_text, texts_view, EditOp, SpecOp,
    SpecValueSpec, ValueSpec,
};
use crate::reader::Gguf;
use crate::template::{
    error_count, errors_among, findings, issues_view, lemma_errors_among, lint, preset, preset_list,
    preset_names, preset_source, Issue, Severity, SpecIssue,
};
use crate::text::{byte_len, dec, pad_right, push_dec, push_padded, str_eq};
use crate::types::{label_text, preview_text, GgufValue, SpecKv, SpecValue, CHAT_TEMPLATE_KEY};
use crate::verify::{data_length, Findings, Report};
use crate::wire::{value_of, SpecHead};
use crate::writer::{head_region, plan, plan_in_place, zeros, FitPlan, SpecPlan};
use vstd::prelude::*;
use vstd::string::*;

verus! {

/// The version of this program.
pub const VERSION: &'static str = "0.1.0";

// ---------------------------------------------------------------------------
// Help texts
// ---------------------------------------------------------------------------

/// The general help.
pub const HELP: &'static str = "\
gguf-chisel — surgical GGUF metadata editing: patch keys, fix chat templates, no tensor rewrite

USAGE:
    gguf-chisel <COMMAND> [ARGS] [OPTIONS]

COMMANDS:
    show      Summarize header, metadata keys and tensors
    get       Print a single metadata value
    set       Patch metadata keys (in place whenever the head fits)
    rm        Remove metadata keys
    rename    Rename a metadata key
    dump      Dump the whole head as pretty JSON
    apply     Apply a JSON patch document (delete/rename/set)
    template  Show, set, lint or list chat templates
    verify    Check structure, offsets and alignment
    sample    Write a tiny valid GGUF for pipeline tests

OPTIONS:
    -h, --help       Print this help
    -V, --version    Print version

Write commands accept --dry-run, --rewrite, -o/--output and --reserve;
run 'gguf-chisel <COMMAND> --help' for details.";

/// The options of every command that writes.
pub const WRITE_OPTS: &'static str = "\
        --dry-run          Plan only: exit 0 if the edit fits in place, 3 if not
        --rewrite          Allow a full rewrite when the head has outgrown its space
    -o, --output <FILE>    Write the result to FILE instead of editing in place
        --reserve <N>      On rewrite, reserve N bytes of headroom (accepts K/M/G)";

/// The help of `show`.
pub const SHOW_HELP: &'static str = "\
gguf-chisel show — summarize header, metadata keys and tensors

USAGE:
    gguf-chisel show <FILE> [OPTIONS]

OPTIONS:
        --tensors    Also list every tensor (name, type, dims, offset)
    -h, --help       Print this help";

/// The help of `get`.
pub const GET_HELP: &'static str = "\
gguf-chisel get — print a single metadata value

USAGE:
    gguf-chisel get <FILE> <KEY> [OPTIONS]

OPTIONS:
        --json    Print {\"key\", \"type\", \"value\"} instead of the bare value
        --raw     Print string values byte-exact, with no trailing newline
    -h, --help    Print this help";

/// The help of `set`, up to the write options.
pub const SET_HELP: &'static str = "\
gguf-chisel set — patch metadata keys (in place whenever the head fits)

USAGE:
    gguf-chisel set <FILE> <KEY=VALUE>... [OPTIONS]

VALUES:
    KEY=VALUE          Existing keys keep their wire type; new keys infer
                       bool / u32 / i32 / u64 / i64 / f32 / string
    KEY=TYPE:VALUE     Force a type: u8 i8 u16 i16 u32 i32 u64 i64 f32 f64
                       bool str (e.g. ctx.len=u32:32768, note=str:42)

OPTIONS:
";

/// The help of `rm`, up to the write options.
pub const RM_HELP: &'static str = "\
gguf-chisel rm — remove metadata keys

USAGE:
    gguf-chisel rm <FILE> <KEY>... [OPTIONS]

OPTIONS:
";

/// The help of `rename`, up to the write options.
pub const RENAME_HELP: &'static str = "\
gguf-chisel rename — rename a metadata key, keeping its value and position

USAGE:
    gguf-chisel rename <FILE> <OLD_KEY> <NEW_KEY> [OPTIONS]

OPTIONS:
";

/// The help of `dump`.
pub const DUMP_HELP: &'static str = "\
gguf-chisel dump — dump the whole head as pretty JSON

USAGE:
    gguf-chisel dump <FILE>

OPTIONS:
    -h, --help    Print this help";

/// The help of `apply`, up to the write options.
pub const APPLY_HELP: &'static str = "\
gguf-chisel apply — apply a JSON patch document

USAGE:
    gguf-chisel apply <FILE> <PATCH.json> [OPTIONS]

The patch document has up to three sections, applied in this order:
    {\"delete\": [\"key\", ...],
     \"rename\": {\"old\": \"new\", ...},
     \"set\":    {\"key\": value-or-{\"type\":...,\"value\":...}, ...}}
Pass '-' as PATCH.json to read the document from stdin.

OPTIONS:
";

/// The help of `template`, up to the write options.
pub const TEMPLATE_HELP: &'static str = "\
gguf-chisel template — show, set, lint or list chat templates

USAGE:
    gguf-chisel template show <FILE>
    gguf-chisel template set <FILE> (--preset <NAME> | --file <TPL>) [OPTIONS]
    gguf-chisel template check (<FILE> | --file <TPL>) [--strict]
    gguf-chisel template presets

OPTIONS:
        --preset <NAME>    Install a built-in template (see 'template presets')
        --file <TPL>       Read the template from a file
        --strict           check: treat warnings as failures
";

/// The help of `verify`.
pub const VERIFY_HELP: &'static str = "\
gguf-chisel verify — check structure, offsets and alignment

USAGE:
    gguf-chisel verify <FILE>

Exit code 0 when the file is structurally sound (warnings allowed), 1 when
any error is found.

OPTIONS:
    -h, --help    Print this help";

/// The help of `sample`.
pub const SAMPLE_HELP: &'static str = "\
gguf-chisel sample — write a tiny valid GGUF for pipeline tests

USAGE:
    gguf-chisel sample <FILE> [OPTIONS]

The sample is deterministic: nine metadata keys (including a ChatML chat
template) and two small F32 tensors, ~1 KiB total.

OPTIONS:
        --reserve <N>    Reserve N bytes of in-place headroom (accepts K/M/G)
    -h, --help           Print this help";

/// What follows the write options in a help.
pub const HELP_TAIL: &'static str = "\n    -h, --help             Print this help";

/// A help text with the write options in it.
pub open spec fn help_with_options(head: Seq<char>) -> Seq<char> {
    head + WRITE_OPTS@ + HELP_TAIL@
}

/// A help text with the write options in it.
fn full_help(head: &str) -> (r: String)
    ensures
        r@ == help_with_options(head@),
{
    let mut s = head.to_string();
    s.append(WRITE_OPTS);
    s.append(HELP_TAIL);
    s
}

// ---------------------------------------------------------------------------
// Errors
// ---------------------------------------------------------------------------

/// An error carrying the intended process exit code.
#[derive(Debug)]
pub struct CliError {
    pub message: String,
    pub code: i32,
}

/// What a [`CliError`] says.
pub struct SpecCliError {
    pub message: Seq<char>,
    pub code: int,
}

impl View for CliError {
    type V = SpecCliError;

    open spec fn view(&self) -> SpecCliError {
        SpecCliError { message: self.message@, code: self.code as int }
    }
}

/// A mistake in the arguments.
pub open spec fn usage_error(message: Seq<char>) -> SpecCliError {
    SpecCliError { message, code: 2 }
}

/// A command that could not be carried out.
pub open spec fn failure_error(message: Seq<char>) -> SpecCliError {
    SpecCliError { message, code: 1 }
}

/// A mistake in the arguments.
pub fn usage(message: String) -> (e: CliError)
    ensures
        e@ == usage_error(message@),
{
    CliError { message, code: 2 }
}

/// A command that could not be carried out.
pub fn failure(message: String) -> (e: CliError)
    ensures
        e@ == failure_error(message@),
{
    CliError { message, code: 1 }
}

/// `1 error` / `2 errors` — counts read like prose, never "1 errors".
pub open spec fn plural_text(n: nat, word: Seq<char>) -> Seq<char> {
    if n == 1 {
        dec(n) + " "@ + word
    } else {
        dec(n) + " "@ + word + "s"@
    }
}

/// `1 error` / `2 errors` — counts read like prose, never "1 errors".
pub fn plural(n: usize, word: &str) -> (r: String)
    ensures
        r@ == plural_text(n as nat, word@),
{
    let mut s = String::new();
    push_dec(&mut s, n as u128);
    assert(s@ =~= dec(n as nat));
    s.append(" ");
    s.append(word);
    if n != 1 {
        s.append("s");
    }
    s
}

// ---------------------------------------------------------------------------
// Arguments
// ---------------------------------------------------------------------------

/// Options shared by every command that writes.
#[derive(Debug)]
pub struct WriteOpts {
    pub dry_run: bool,
    pub rewrite: bool,
    pub output: Option<String>,
    pub reserve: u64,
}

/// What [`WriteOpts`] hold.
pub struct SpecWriteOpts {
    pub dry_run: bool,
    pub rewrite: bool,
    pub output: Option<Seq<char>>,
    pub reserve: u64,
}

/// The text of an optional string.
pub open spec fn opt_string(s: Option<String>) -> Option<Seq<char>> {
    match s {
        Some(t) => Some(t@),
        None => None,
    }
}

impl View for WriteOpts {
    type V = SpecWriteOpts;

    open spec fn view(&self) -> SpecWriteOpts {
        SpecWriteOpts {
            dry_run: self.dry_run,
            rewrite: self.rewrite,
            output: opt_string(self.output),
            reserve: self.reserve,
        }
    }
}

/// No options given.
pub open spec fn no_opts() -> SpecWriteOpts {
    SpecWriteOpts { dry_run: false, rewrite: false, output: None, reserve: 0 }
}

/// Arguments that were sorted out: positionals, write options, flags that were
/// given, and the values of `--file` and `--preset`.
pub struct Sorted {
    pub positionals: Vec<String>,
    pub opts: WriteOpts,
    pub first: bool,
    pub second: bool,
    pub file: Option<String>,
    pub preset: Option<String>,
}

/// What [`Sorted`] holds.
pub struct SpecSorted {
    pub positionals: Seq<Seq<char>>,
    pub opts: SpecWriteOpts,
    pub first: bool,
    pub second: bool,
    pub file: Option<Seq<char>>,
    pub preset: Option<Seq<char>>,
}

impl View for Sorted {
    type V = SpecSorted;

    open spec fn view(&self) -> SpecSorted {
        SpecSorted {
            positionals: texts_view(self.positionals@),
            opts: self.opts@,
            first: self.first,
            second: self.second,
            file: opt_string(self.file),
            preset: opt_string(self.preset),
        }
    }
}

/// Nothing sorted out yet.
pub open spec fn nothing_sorted() -> SpecSorted {
    SpecSorted {
        positionals: Seq::empty(),
        opts: no_opts(),
        first: false,
        second: false,
        file: None,
        preset: None,
    }
}

/// What a command accepts besides positionals and `--help`.
pub struct Accepts {
    /// The write options; without it they are rejected like any other unknown
    /// option.
    pub write: bool,
    /// The names of up to two flags; an empty name is no flag.
    pub first: &'static str,
    pub second: &'static str,
    /// `--file` with a path.
    pub file: bool,
    /// `--preset` with a name.
    pub preset: bool,
    /// A `template` subcommand, whose complaints are worded more shortly and for
    /// which a single dash is an option too.
    pub brief: bool,
}

/// What one argument does: how many arguments it takes up, and what is sorted
/// out then; `Ok(None)` where it asks for help.
pub open spec fn sort_one(args: Seq<Seq<char>>, i: int, a: Accepts, st: SpecSorted) -> Result<
    Option<(int, SpecSorted)>,
    SpecCliError,
> {
    let arg = args[i];
    let more = i + 1 < args.len();
    if a.first@.len() > 0 && arg == a.first@ {
        Ok(Some((1, SpecSorted { first: true, ..st })))
    } else if a.second@.len() > 0 && arg == a.second@ {
        Ok(Some((1, SpecSorted { second: true, ..st })))
    } else if a.preset && arg == "--preset"@ {
        if more {
            Ok(Some((2, SpecSorted { preset: Some(args[i + 1]), ..st })))
        } else {
            Err(usage_error("--preset needs a name"@))
        }
    } else if a.file && arg == "--file"@ {
        if more {
            Ok(Some((2, SpecSorted { file: Some(args[i + 1]), ..st })))
        } else {
            Err(usage_error("--file needs a path"@))
        }
    } else if arg == "-h"@ || arg == "--help"@ {
        Ok(None)
    } else if a.write && arg == "--dry-run"@ {
        Ok(Some((1, SpecSorted { opts: SpecWriteOpts { dry_run: true, ..st.opts }, ..st })))
    } else if a.write && arg == "--rewrite"@ {
        Ok(Some((1, SpecSorted { opts: SpecWriteOpts { rewrite: true, ..st.opts }, ..st })))
    } else if a.write && (arg == "-o"@ || arg == "--output"@) {
        if more {
            Ok(
                Some(
                    (
                        2,
                        SpecSorted {
                            opts: SpecWriteOpts { output: Some(args[i + 1]), ..st.opts },
                            ..st
                        },
                    ),
                ),
            )
        } else if a.brief {
            Err(usage_error("-o needs a path"@))
        } else {
            Err(usage_error("-o/--output needs a path"@))
        }
    } else if a.write && arg == "--reserve"@ {
        if more {
            match size_of_text(args[i + 1]) {
                Ok(n) => Ok(
                    Some(
                        (2, SpecSorted { opts: SpecWriteOpts { reserve: n, ..st.opts }, ..st }),
                    ),
                ),
                Err(e) => Err(usage_error(e)),
            }
        } else {
            Err(usage_error("--reserve needs a size"@))
        }
    } else if arg.len() > 0 && arg[0] == '-' && (a.brief || arg.len() > 1) {
        if a.brief {
            Err(usage_error("unknown option '"@ + arg + "'"@))
        } else {
            Err(usage_error("unknown option '"@ + arg + "' (see --help)"@))
        }
    } else {
        Ok(Some((1, SpecSorted { positionals: st.positionals.push(arg), ..st })))
    }
}

/// The arguments from number `i` on, sorted out one after the other; `Ok(None)`
/// where help is asked for before any mistake.
pub open spec fn sort_from(args: Seq<Seq<char>>, i: int, a: Accepts, st: SpecSorted) -> Result<
    Option<SpecSorted>,
    SpecCliError,
>
    decreases args.len() - i,
{
    if i >= args.len() {
        Ok(Some(st))
    } else {
        match sort_one(args, i, a, st) {
            Err(e) => Err(e),
            Ok(None) => Ok(None),
            Ok(Some((used, next))) => if used == 2 {
                sort_from(args, i + 2, a, next)
            } else {
                sort_from(args, i + 1, a, next)
            },
        }
    }
}

/// Whether an argument is a flag of this name.
fn is_flag(arg: &str, name: &str) -> (r: bool)
    ensures
        r == (name@.len() > 0 && arg@ == name@),
{
    proof {
        reveal_strlit("");
        if name@.len() == 0 {
            assert(name@ =~= ""@);
        }
    }
    !str_eq(name, "") && str_eq(arg, name)
}

/// Whether a text starts with a dash, and whether more follows.
fn dashed(arg: &str) -> (r: (bool, bool))
    ensures
        r.0 == (arg@.len() > 0 && arg@[0] == '-'),
        r.1 == (arg@.len() > 1),
{
    let s = crate::text::chars_of(arg);
    (s.len() > 0 && s[0] == '-', s.len() > 1)
}

/// Sort out argument number `i`; returns how many arguments it takes up, `None`
/// where it asks for help.
fn sort_arg(args: &Vec<String>, i: usize, a: &Accepts, st: &mut Sorted) -> (r: Result<
    Option<usize>,
    CliError,
>)
    requires
        i < args@.len(),
    ensures
        match (r, sort_one(texts_view(args@), i as int, *a, old(st)@)) {
            (Ok(Some(n)), Ok(Some((m, next)))) => n == m && final(st)@ == next && (n == 1 || (n == 2
                && i + 1 < args@.len())),
            (Ok(None), Ok(None)) => true,
            (Err(e), Err(f)) => e@ == f,
            _ => false,
        },
{
    let ghost all = texts_view(args@);
    let arg = args[i].as_str();
    assert(all[i as int] == arg@);
    let more = args.len() - i > 1;
    assert(more ==> all[i + 1] == args@[i + 1]@);
    if is_flag(arg, a.first) {
        st.first = true;
        return Ok(Some(1));
    }
    if is_flag(arg, a.second) {
        st.second = true;
        return Ok(Some(1));
    }
    if a.preset && str_eq(arg, "--preset") {
        if !more {
            return Err(usage("--preset needs a name".to_string()));
        }
        st.preset = Some(args[i + 1].clone());
        return Ok(Some(2));
    }
    if a.file && str_eq(arg, "--file") {
        if !more {
            return Err(usage("--file needs a path".to_string()));
        }
        st.file = Some(args[i + 1].clone());
        return Ok(Some(2));
    }
    if str_eq(arg, "-h") || str_eq(arg, "--help") {
        return Ok(None);
    }
    if a.write && str_eq(arg, "--dry-run") {
        st.opts.dry_run = true;
        return Ok(Some(1));
    }
    if a.write && str_eq(arg, "--rewrite") {
        st.opts.rewrite = true;
        return Ok(Some(1));
    }
    if a.write && (str_eq(arg, "-o") || str_eq(arg, "--output")) {
        if !more {
            return Err(
                usage(
                    if a.brief {
                        "-o needs a path".to_string()
                    } else {
                        "-o/--output needs a path".to_string()
                    },
                ),
            );
        }
        st.opts.output = Some(args[i + 1].clone());
        return Ok(Some(2));
    }
    if a.write && str_eq(arg, "--reserve") {
        if !more {
            return Err(usage("--reserve needs a size".to_string()));
        }
        return match parse_size(args[i + 1].as_str()) {
            Ok(n) => {
                st.opts.reserve = n;
                Ok(Some(2))
            },
            Err(e) => Err(usage(e.0)),
        };
    }
    let (dash, long) = dashed(arg);
    if dash && (a.brief || long) {
        let mut m = "unknown option '".to_string();
        m.append(arg);
        if a.brief {
            m.append("'");
        } else {
            m.append("' (see --help)");
        }
        return Err(usage(m));
    }
    let ghost before = texts_view(st.positionals@);
    st.positionals.push(args[i].clone());
    assert(texts_view(st.positionals@) =~= before.push(arg@));
    Ok(Some(1))
}

/// Sort out the arguments from number `from` on: positionals and recognized
/// options. `Ok(None)` means that help was asked for.
fn parse_args(args: &Vec<String>, from: usize, a: &Accepts) -> (r: Result<
    Option<Sorted>,
    CliError,
>)
    requires
        from <= args@.len(),
    ensures
        match (r, sort_from(texts_view(args@), from as int, *a, nothing_sorted())) {
            (Ok(Some(s)), Ok(Some(w))) => s@ == w,
            (Ok(None), Ok(None)) => true,
            (Err(e), Err(f)) => e@ == f,
            _ => false,
        },
{
    let ghost all = texts_view(args@);
    let mut st = Sorted {
        positionals: Vec::new(),
        opts: WriteOpts { dry_run: false, rewrite: false, output: None, reserve: 0 },
        first: false,
        second: false,
        file: None,
        preset: None,
    };
    assert(texts_view(st.positionals@) =~= Seq::<Seq<char>>::empty());
    assert(st@ == nothing_sorted());
    let n: usize = args.len();
    let mut i: usize = from;
    while i < n
        invariant
            from <= i <= n,
            n == args@.len(),
            all == texts_view(args@),
            sort_from(all, from as int, *a, nothing_sorted()) == sort_from(
                all,
                i as int,
                *a,
                st@,
            ),
        decreases n - i,
    {
        match sort_arg(args, i, a, &mut st) {
            Err(e) => {
                return Err(e);
            },
            Ok(None) => {
                return Ok(None);
            },
            Ok(Some(used)) => {
                if used == 2 {
                    i += 2;
                } else {
                    i += 1;
                }
            },
        }
    }
    Ok(Some(st))
}

// ---------------------------------------------------------------------------
// Commands
// ---------------------------------------------------------------------------

/// What the arguments ask for.
#[derive(Debug)]
pub enum Command {
    /// Print a text and a newline.
    Print { text: String },
    Show { file: String, tensors: bool },
    Get { file: String, key: String, json: bool, raw: bool },
    Edit { file: String, ops: Vec<EditOp>, opts: WriteOpts },
    Dump { file: String },
    /// Apply the patch document in `patch` (`-` for stdin).
    Apply { file: String, patch: String, opts: WriteOpts },
    TemplateShow { file: String },
    /// Lint the template in a model file.
    CheckModel { file: String, strict: bool },
    /// Lint the template in a text file.
    CheckFile { template: String, strict: bool },
    /// Install a template text.
    InstallText { file: String, text: String, opts: WriteOpts },
    /// Install the template in a text file.
    InstallFile { file: String, template: String, opts: WriteOpts },
    Verify { file: String },
    Sample { file: String, reserve: u64 },
}

/// What a [`Command`] holds.
pub enum SpecCommand {
    Print { text: Seq<char> },
    Show { file: Seq<char>, tensors: bool },
    Get { file: Seq<char>, key: Seq<char>, json: bool, raw: bool },
    Edit { file: Seq<char>, ops: Seq<SpecOp>, opts: SpecWriteOpts },
    Dump { file: Seq<char> },
    Apply { file: Seq<char>, patch: Seq<char>, opts: SpecWriteOpts },
    TemplateShow { file: Seq<char> },
    CheckModel { file: Seq<char>, strict: bool },
    CheckFile { template: Seq<char>, strict: bool },
    InstallText { file: Seq<char>, text: Seq<char>, opts: SpecWriteOpts },
    InstallFile { file: Seq<char>, template: Seq<char>, opts: SpecWriteOpts },
    Verify { file: Seq<char> },
    Sample { file: Seq<char>, reserve: u64 },
}

impl View for Command {
    type V = SpecCommand;

    open spec fn view(&self) -> SpecCommand {
        match *self {
            Command::Print { text } => SpecCommand::Print { text: text@ },
            Command::Show { file, tensors } => SpecCommand::Show { file: file@, tensors },
            Command::Get { file, key, json, raw } => SpecCommand::Get {
                file: file@,
                key: key@,
                json,
                raw,
            },
            Command::Edit { file, ops, opts } => SpecCommand::Edit {
                file: file@,
                ops: ops_view(ops@),
                opts: opts@,
            },
            Command::Dump { file } => SpecCommand::Dump { file: file@ },
            Command::Apply { file, patch, opts } => SpecCommand::Apply {
                file: file@,
                patch: patch@,
                opts: opts@,
            },
            Command::TemplateShow { file } => SpecCommand::TemplateShow { file: file@ },
            Command::CheckModel { file, strict } => SpecCommand::CheckModel { file: file@, strict },
            Command::CheckFile { template, strict } => SpecCommand::CheckFile {
                template: template@,
                strict,
            },
            Command::InstallText { file, text, opts } => SpecCommand::InstallText {
                file: file@,
                text: text@,
                opts: opts@,
            },
            Command::InstallFile { file, template, opts } => SpecCommand::InstallFile {
                file: file@,
                template: template@,
                opts: opts@,
            },
            Command::Verify { file } => SpecCommand::Verify { file: file@ },
            Command::Sample { file, reserve } => SpecCommand::Sample { file: file@, reserve },
        }
    }
}

/// The outcome of parsing a command line.
pub type Parsed = Result<SpecCommand, SpecCliError>;

/// What a command that takes no options accepts.
pub open spec fn reads_only() -> Accepts {
    Accepts { write: false, first: "", second: "", file: false, preset: false, brief: false }
}

/// What a command that writes accepts.
pub open spec fn writes() -> Accepts {
    Accepts { write: true, ..reads_only() }
}

/// Print a text.
pub open spec fn print(text: Seq<char>) -> Parsed {
    Ok(SpecCommand::Print { text })
}

/// The command line of `show`.
pub open spec fn show_command(args: Seq<Seq<char>>) -> Parsed {
    match sort_from(args, 1, (Accepts { first: "--tensors", ..reads_only() }), nothing_sorted()) {
        Err(e) => Err(e),
        Ok(None) => print(SHOW_HELP@),
        Ok(Some(st)) => if st.positionals.len() == 1 {
            Ok(SpecCommand::Show { file: st.positionals[0], tensors: st.first })
        } else {
            Err(usage_error("show takes exactly one FILE (see 'show --help')"@))
        },
    }
}

/// The command line of `get`.
pub open spec fn get_command(args: Seq<Seq<char>>) -> Parsed {
    match sort_from(
        args,
        1,
        (Accepts { first: "--json", second: "--raw", ..reads_only() }),
        nothing_sorted(),
    ) {
        Err(e) => Err(e),
        Ok(None) => print(GET_HELP@),
        Ok(Some(st)) => if st.positionals.len() == 2 {
            Ok(
                SpecCommand::Get {
                    file: st.positionals[0],
                    key: st.positionals[1],
                    json: st.first,
                    raw: st.second,
                },
            )
        } else {
            Err(usage_error("get takes FILE and KEY (see 'get --help')"@))
        },
    }
}

/// The command line of `set`.
pub open spec fn set_command(args: Seq<Seq<char>>) -> Parsed {
    match sort_from(args, 1, writes(), nothing_sorted()) {
        Err(e) => Err(e),
        Ok(None) => print(help_with_options(SET_HELP@)),
        Ok(Some(st)) => {
            let pos = st.positionals;
            if pos.len() < 2 {
                Err(usage_error("set takes FILE and at least one KEY=VALUE"@))
            } else {
                match all_ok(Seq::new((pos.len() - 1) as nat, |i: int| set_op(pos[i + 1]))) {
                    Ok(ops) => Ok(SpecCommand::Edit { file: pos[0], ops, opts: st.opts }),
                    Err(e) => Err(usage_error(e)),
                }
            }
        },
    }
}

/// The command line of `rm`.
pub open spec fn rm_command(args: Seq<Seq<char>>) -> Parsed {
    match sort_from(args, 1, writes(), nothing_sorted()) {
        Err(e) => Err(e),
        Ok(None) => print(help_with_options(RM_HELP@)),
        Ok(Some(st)) => {
            let pos = st.positionals;
            if pos.len() < 2 {
                Err(usage_error("rm takes FILE and at least one KEY"@))
            } else {
                Ok(
                    SpecCommand::Edit {
                        file: pos[0],
                        ops: Seq::new(
                            (pos.len() - 1) as nat,
                            |i: int| SpecOp::Remove { key: pos[i + 1] },
                        ),
                        opts: st.opts,
                    },
                )
            }
        },
    }
}

/// The command line of `rename`.
pub open spec fn rename_command(args: Seq<Seq<char>>) -> Parsed {
    match sort_from(args, 1, writes(), nothing_sorted()) {
        Err(e) => Err(e),
        Ok(None) => print(help_with_options(RENAME_HELP@)),
        Ok(Some(st)) => if st.positionals.len() == 3 {
            Ok(
                SpecCommand::Edit {
                    file: st.positionals[0],
                    ops: seq![SpecOp::Rename { from: st.positionals[1], to: st.positionals[2] }],
                    opts: st.opts,
                },
            )
        } else {
            Err(usage_error("rename takes FILE, OLD_KEY and NEW_KEY"@))
        },
    }
}

/// The command line of `dump`.
pub open spec fn dump_command(args: Seq<Seq<char>>) -> Parsed {
    match sort_from(args, 1, reads_only(), nothing_sorted()) {
        Err(e) => Err(e),
        Ok(None) => print(DUMP_HELP@),
        Ok(Some(st)) => if st.positionals.len() == 1 {
            Ok(SpecCommand::Dump { file: st.positionals[0] })
        } else {
            Err(usage_error("dump takes exactly one FILE"@))
        },
    }
}

/// The command line of `apply`.
pub open spec fn apply_command(args: Seq<Seq<char>>) -> Parsed {
    match sort_from(args, 1, writes(), nothing_sorted()) {
        Err(e) => Err(e),
        Ok(None) => print(help_with_options(APPLY_HELP@)),
        Ok(Some(st)) => if st.positionals.len() == 2 {
            Ok(
                SpecCommand::Apply {
                    file: st.positionals[0],
                    patch: st.positionals[1],
                    opts: st.opts,
                },
            )
        } else {
            Err(usage_error("apply takes FILE and PATCH.json (or '-' for stdin)"@))
        },
    }
}

/// The command line of `verify`.
pub open spec fn verify_command(args: Seq<Seq<char>>) -> Parsed {
    match sort_from(args, 1, reads_only(), nothing_sorted()) {
        Err(e) => Err(e),
        Ok(None) => print(VERIFY_HELP@),
        Ok(Some(st)) => if st.positionals.len() == 1 {
            Ok(SpecCommand::Verify { file: st.positionals[0] })
        } else {
            Err(usage_error("verify takes exactly one FILE"@))
        },
    }
}

/// The command line of `sample`.
pub open spec fn sample_command(args: Seq<Seq<char>>) -> Parsed {
    match sort_from(args, 1, writes(), nothing_sorted()) {
        Err(e) => Err(e),
        Ok(None) => print(SAMPLE_HELP@),
        Ok(Some(st)) => if st.positionals.len() != 1 {
            Err(usage_error("sample takes exactly one FILE"@))
        } else if st.opts.dry_run || st.opts.rewrite || st.opts.output is Some {
            Err(usage_error("sample only accepts --reserve (see 'sample --help')"@))
        } else {
            Ok(SpecCommand::Sample { file: st.positionals[0], reserve: st.opts.reserve })
        },
    }
}

/// The list of presets, one per line, without the last newline.
pub open spec fn presets_text() -> Seq<char> {
    preset_lines(preset_list())
}

/// Names padded to ten characters with their descriptions, one per line.
pub open spec fn preset_lines(list: Seq<(Seq<char>, Seq<char>)>) -> Seq<char>
    decreases list.len(),
{
    if list.len() == 0 {
        Seq::empty()
    } else {
        let line = pad_right(list.last().0, 10) + " "@ + list.last().1;
        if list.len() == 1 {
            line
        } else {
            preset_lines(list.drop_last()) + "\n"@ + line
        }
    }
}

/// What `template check` accepts.
pub open spec fn check_accepts() -> Accepts {
    Accepts { first: "--strict", file: true, brief: true, ..reads_only() }
}

/// What `template set` accepts.
pub open spec fn install_accepts() -> Accepts {
    Accepts { write: true, file: true, preset: true, brief: true, ..reads_only() }
}

/// The command line of `template show`.
pub open spec fn template_show_command(args: Seq<Seq<char>>) -> Parsed {
    match sort_from(args, 2, reads_only(), nothing_sorted()) {
        Err(e) => Err(e),
        Ok(None) => print(help_with_options(TEMPLATE_HELP@)),
        Ok(Some(st)) => if st.positionals.len() == 1 {
            Ok(SpecCommand::TemplateShow { file: st.positionals[0] })
        } else {
            Err(usage_error("template show takes exactly one FILE"@))
        },
    }
}

/// The command line of `template check`.
pub open spec fn template_check_command(args: Seq<Seq<char>>) -> Parsed {
    match sort_from(args, 2, check_accepts(), nothing_sorted()) {
        Err(e) => Err(e),
        Ok(None) => print(help_with_options(TEMPLATE_HELP@)),
        Ok(Some(st)) => match st.file {
            Some(template) => if st.positionals.len() == 0 {
                Ok(SpecCommand::CheckFile { template, strict: st.first })
            } else {
                Err(usage_error("template check takes FILE or --file TPL"@))
            },
            None => if st.positionals.len() == 1 {
                Ok(SpecCommand::CheckModel { file: st.positionals[0], strict: st.first })
            } else {
                Err(usage_error("template check takes FILE or --file TPL"@))
            },
        },
    }
}

/// The command line of `template set`.
pub open spec fn template_set_command(args: Seq<Seq<char>>) -> Parsed {
    match sort_from(args, 2, install_accepts(), nothing_sorted()) {
        Err(e) => Err(e),
        Ok(None) => print(help_with_options(TEMPLATE_HELP@)),
        Ok(Some(st)) => if st.positionals.len() != 1 {
            Err(usage_error("template set takes FILE plus --preset or --file"@))
        } else {
            let file = st.positionals[0];
            match (st.preset, st.file) {
                (Some(name), None) => match preset_source(name) {
                    Some(text) => Ok(SpecCommand::InstallText { file, text, opts: st.opts }),
                    None => Err(
                        failure_error(
                            "unknown preset '"@ + name
                                + "' (run 'gguf-chisel template presets')"@,
                        ),
                    ),
                },
                (None, Some(template)) => Ok(
                    SpecCommand::InstallFile { file, template, opts: st.opts },
                ),
                _ => Err(usage_error("template set needs exactly one of --preset or --file"@)),
            }
        },
    }
}

/// The command line of `template`.
pub open spec fn template_command(args: Seq<Seq<char>>) -> Parsed {
    if args.len() < 2 {
        Err(usage_error("template needs a subcommand: show, set, check or presets"@))
    } else if args[1] == "presets"@ {
        print(presets_text())
    } else if args[1] == "show"@ {
        template_show_command(args)
    } else if args[1] == "check"@ {
        template_check_command(args)
    } else if args[1] == "set"@ {
        template_set_command(args)
    } else {
        Err(
            usage_error(
                "unknown template subcommand '"@ + args[1] + "' (show, set, check, presets)"@,
            ),
        )
    }
}

/// What a command line asks for.
pub open spec fn command_of(args: Seq<Seq<char>>) -> Parsed {
    if args.len() == 0 {
        print(HELP@)
    } else {
        let c = args[0];
        if c == "-h"@ || c == "--help"@ || c == "help"@ {
            print(HELP@)
        } else if c == "-V"@ || c == "--version"@ {
            print("gguf-chisel "@ + VERSION@)
        } else if c == "show"@ {
            show_command(args)
        } else if c == "get"@ {
            get_command(args)
        } else if c == "set"@ {
            set_command(args)
        } else if c == "rm"@ {
            rm_command(args)
        } else if c == "rename"@ {
            rename_command(args)
        } else if c == "dump"@ {
            dump_command(args)
        } else if c == "apply"@ {
            apply_command(args)
        } else if c == "template"@ {
            template_command(args)
        } else if c == "verify"@ {
            verify_command(args)
        } else if c == "sample"@ {
            sample_command(args)
        } else {
            Err(usage_error("unknown command '"@ + c + "' (see --help)"@))
        }
    }
}

/// `r` is the outcome that a command line has.
pub open spec fn understood(r: Result<Command, CliError>, p: Parsed) -> bool {
    match (r, p) {
        (Ok(c), Ok(d)) => c@ == d,
        (Err(e), Err(f)) => e@ == f,
        _ => false,
    }
}

/// The first positional, taken out.
fn take_first(pos: Vec<String>) -> (r: String)
    requires
        pos@.len() > 0,
    ensures
        r@ == texts_view(pos@)[0],
{
    pos[0].clone()
}

fn parse_show(args: &Vec<String>) -> (r: Result<Command, CliError>)
    requires
        args@.len() > 0,
    ensures
        understood(r, show_command(texts_view(args@))),
{
    let a = Accepts {
        write: false,
        first: "--tensors",
        second: "",
        file: false,
        preset: false,
        brief: false,
    };
    match parse_args(args, 1, &a) {
        Err(e) => Err(e),
        Ok(None) => Ok(Command::Print { text: SHOW_HELP.to_string() }),
        Ok(Some(st)) => {
            if st.positionals.len() != 1 {
                return Err(
                    usage("show takes exactly one FILE (see 'show --help')".to_string()),
                );
            }
            Ok(Command::Show { tensors: st.first, file: take_first(st.positionals) })
        },
    }
}

fn parse_get(args: &Vec<String>) -> (r: Result<Command, CliError>)
    requires
        args@.len() > 0,
    ensures
        understood(r, get_command(texts_view(args@))),
{
    let a = Accepts {
        write: false,
        first: "--json",
        second: "--raw",
        file: false,
        preset: false,
        brief: false,
    };
    match parse_args(args, 1, &a) {
        Err(e) => Err(e),
        Ok(None) => Ok(Command::Print { text: GET_HELP.to_string() }),
        Ok(Some(st)) => {
            if st.positionals.len() != 2 {
                return Err(usage("get takes FILE and KEY (see 'get --help')".to_string()));
            }
            let key = st.positionals[1].clone();
            Ok(
                Command::Get {
                    key,
                    json: st.first,
                    raw: st.second,
                    file: take_first(st.positionals),
                },
            )
        },
    }
}

/// What a command that writes accepts.
fn accept_writes() -> (a: Accepts)
    ensures
        a == writes(),
{
    Accepts { write: true, first: "", second: "", file: false, preset: false, brief: false }
}

/// What a command that takes no options accepts.
fn accept_nothing() -> (a: Accepts)
    ensures
        a == reads_only(),
{
    Accepts { write: false, first: "", second: "", file: false, preset: false, brief: false }
}

fn parse_set(args: &Vec<String>) -> (r: Result<Command, CliError>)
    requires
        args@.len() > 0,
    ensures
        understood(r, set_command(texts_view(args@))),
{
    match parse_args(args, 1, &accept_writes()) {
        Err(e) => Err(e),
        Ok(None) => Ok(Command::Print { text: full_help(SET_HELP) }),
        Ok(Some(st)) => {
            let ghost pos = texts_view(st.positionals@);
            let n: usize = st.positionals.len();
            if n < 2 {
                return Err(usage("set takes FILE and at least one KEY=VALUE".to_string()));
            }
            let ghost results = Seq::new((pos.len() - 1) as nat, |i: int| set_op(pos[i + 1]));
            let mut ops: Vec<EditOp> = Vec::new();
            let mut i: usize = 1;
            assert(results.take(0) =~= Seq::<Result<SpecOp, Seq<char>>>::empty());
            assert(ops_view(ops@) =~= Seq::<SpecOp>::empty());
            while i < n
                invariant
                    1 <= i <= n,
                    2 <= n,
                    n == st.positionals@.len(),
                    pos == texts_view(st.positionals@),
                    results == Seq::new((pos.len() - 1) as nat, |i: int| set_op(pos[i + 1])),
                    sort_from(texts_view(args@), 1, writes(), nothing_sorted()) == Ok::<
                        Option<SpecSorted>,
                        SpecCliError,
                    >(Some(st@)),
                    all_ok(results.take(i - 1)) == Ok::<Seq<SpecOp>, Seq<char>>(ops_view(ops@)),
                decreases n - i,
            {
                proof {
                    lemma_all_ok_step(results, i - 1);
                    assert(results[i - 1] == set_op(pos[i as int]));
                    assert(pos[i as int] == st.positionals@[i as int]@);
                }
                match parse_set_arg(st.positionals[i].as_str()) {
                    Ok(op) => {
                        let ghost before = ops_view(ops@);
                        ops.push(op);
                        assert(ops_view(ops@) =~= before.push(op@));
                    },
                    Err(e) => {
                        proof {
                            lemma_all_ok_err(results, i as int);
                        }
                        return Err(usage(e.0));
                    },
                }
                i += 1;
            }
            assert(results.take(i - 1) =~= results);
            let Sorted { positionals, opts, .. } = st;
            Ok(Command::Edit { file: take_first(positionals), ops, opts })
        },
    }
}

fn parse_rm(args: &Vec<String>) -> (r: Result<Command, CliError>)
    requires
        args@.len() > 0,
    ensures
        understood(r, rm_command(texts_view(args@))),
{
    match parse_args(args, 1, &accept_writes()) {
        Err(e) => Err(e),
        Ok(None) => Ok(Command::Print { text: full_help(RM_HELP) }),
        Ok(Some(st)) => {
            let ghost pos = texts_view(st.positionals@);
            let n: usize = st.positionals.len();
            if n < 2 {
                return Err(usage("rm takes FILE and at least one KEY".to_string()));
            }
            let ghost wanted = Seq::new(
                (pos.len() - 1) as nat,
                |i: int| SpecOp::Remove { key: pos[i + 1] },
            );
            let mut ops: Vec<EditOp> = Vec::new();
            let mut i: usize = 1;
            assert(ops_view(ops@) =~= wanted.take(0));
            while i < n
                invariant
                    1 <= i <= n,
                    n == st.positionals@.len(),
                    pos == texts_view(st.positionals@),
                    wanted == Seq::new(
                        (pos.len() - 1) as nat,
                        |i: int| SpecOp::Remove { key: pos[i + 1] },
                    ),
                    ops_view(ops@) == wanted.take(i - 1),
                decreases n - i,
            {
                let ghost before = ops_view(ops@);
                ops.push(EditOp::Remove { key: st.positionals[i].clone() });
                assert(ops_view(ops@) =~= before.push(wanted[i - 1]));
                i += 1;
                assert(ops_view(ops@) =~= wanted.take(i - 1));
            }
            assert(wanted.take(i - 1) =~= wanted);
            let Sorted { positionals, opts, .. } = st;
            Ok(Command::Edit { file: take_first(positionals), ops, opts })
        },
    }
}

fn parse_rename(args: &Vec<String>) -> (r: Result<Command, CliError>)
    requires
        args@.len() > 0,
    ensures
        understood(r, rename_command(texts_view(args@))),
{
    match parse_args(args, 1, &accept_writes()) {
        Err(e) => Err(e),
        Ok(None) => Ok(Command::Print { text: full_help(RENAME_HELP) }),
        Ok(Some(st)) => {
            if st.positionals.len() != 3 {
                return Err(usage("rename takes FILE, OLD_KEY and NEW_KEY".to_string()));
            }
            let Sorted { positionals, opts, .. } = st;
            let mut ops: Vec<EditOp> = Vec::new();
            ops.push(
                EditOp::Rename { from: positionals[1].clone(), to: positionals[2].clone() },
            );
            assert(ops_view(ops@) =~= seq![
                SpecOp::Rename { from: positionals@[1]@, to: positionals@[2]@ },
            ]);
            Ok(Command::Edit { file: take_first(positionals), ops, opts })
        },
    }
}

fn parse_dump(args: &Vec<String>) -> (r: Result<Command, CliError>)
    requires
        args@.len() > 0,
    ensures
        understood(r, dump_command(texts_view(args@))),
{
    match parse_args(args, 1, &accept_nothing()) {
        Err(e) => Err(e),
        Ok(None) => Ok(Command::Print { text: DUMP_HELP.to_string() }),
        Ok(Some(st)) => {
            if st.positionals.len() != 1 {
                return Err(usage("dump takes exactly one FILE".to_string()));
            }
            Ok(Command::Dump { file: take_first(st.positionals) })
        },
    }
}

fn parse_apply(args: &Vec<String>) -> (r: Result<Command, CliError>)
    requires
        args@.len() > 0,
    ensures
        understood(r, apply_command(texts_view(args@))),
{
    match parse_args(args, 1, &accept_writes()) {
        Err(e) => Err(e),
        Ok(None) => Ok(Command::Print { text: full_help(APPLY_HELP) }),
        Ok(Some(st)) => {
            if st.positionals.len() != 2 {
                return Err(
                    usage("apply takes FILE and PATCH.json (or '-' for stdin)".to_string()),
                );
            }
            let Sorted { positionals, opts, .. } = st;
            let patch = positionals[1].clone();
            Ok(Command::Apply { patch, opts, file: take_first(positionals) })
        },
    }
}

fn parse_verify(args: &Vec<String>) -> (r: Result<Command, CliError>)
    requires
        args@.len() > 0,
    ensures
        understood(r, verify_command(texts_view(args@))),
{
    match parse_args(args, 1, &accept_nothing()) {
        Err(e) => Err(e),
        Ok(None) => Ok(Command::Print { text: VERIFY_HELP.to_string() }),
        Ok(Some(st)) => {
            if st.positionals.len() != 1 {
                return Err(usage("verify takes exactly one FILE".to_string()));
            }
            Ok(Command::Verify { file: take_first(st.positionals) })
        },
    }
}

fn parse_sample(args: &Vec<String>) -> (r: Result<Command, CliError>)
    requires
        args@.len() > 0,
    ensures
        understood(r, sample_command(texts_view(args@))),
{
    match parse_args(args, 1, &accept_writes()) {
        Err(e) => Err(e),
        Ok(None) => Ok(Command::Print { text: SAMPLE_HELP.to_string() }),
        Ok(Some(st)) => {
            if st.positionals.len() != 1 {
                return Err(usage("sample takes exactly one FILE".to_string()));
            }
            if st.opts.dry_run || st.opts.rewrite || st.opts.output.is_some() {
                return Err(
                    usage("sample only accepts --reserve (see 'sample --help')".to_string()),
                );
            }
            Ok(Command::Sample { reserve: st.opts.reserve, file: take_first(st.positionals) })
        },
    }
}

/// The list of presets, one per line, without the last newline.
fn presets_string() -> (out: String)
    ensures
        out@ == presets_text(),
{
    let list = preset_names();
    let ghost all = crate::template::pair_texts(list@);
    let mut out = String::new();
    let mut i: usize = 0;
    assert(out@ =~= preset_lines(all.take(0)));
    while i < list.len()
        invariant
            i <= list@.len(),
            all == crate::template::pair_texts(list@),
            out@ == preset_lines(all.take(i as int)),
        decreases list@.len() - i,
    {
        let ghost before = out@;
        if i > 0 {
            out.append("\n");
        }
        let (name, about) = list[i];
        push_padded(&mut out, name, 10);
        out.append(" ");
        out.append(about);
        proof {
            let t = all.take(i + 1);
            assert(t.drop_last() =~= all.take(i as int));
            assert(t.last() == (name@, about@));
            let line = pad_right(name@, 10) + " "@ + about@;
            if i > 0 {
                assert(out@ =~= before + "\n"@ + line);
            } else {
                assert(out@ =~= line);
            }
        }
        i += 1;
    }
    assert(all.take(i as int) =~= all);
    out
}

fn parse_template_show(args: &Vec<String>) -> (r: Result<Command, CliError>)
    requires
        args@.len() >= 2,
    ensures
        understood(r, template_show_command(texts_view(args@))),
{
    match parse_args(args, 2, &accept_nothing()) {
        Err(e) => Err(e),
        Ok(None) => Ok(Command::Print { text: full_help(TEMPLATE_HELP) }),
        Ok(Some(st)) => {
            if st.positionals.len() != 1 {
                return Err(usage("template show takes exactly one FILE".to_string()));
            }
            Ok(Command::TemplateShow { file: take_first(st.positionals) })
        },
    }
}

fn parse_template_check(args: &Vec<String>) -> (r: Result<Command, CliError>)
    requires
        args@.len() >= 2,
    ensures
        understood(r, template_check_command(texts_view(args@))),
{
    let a = Accepts {
        write: false,
        first: "--strict",
        second: "",
        file: true,
        preset: false,
        brief: true,
    };
    match parse_args(args, 2, &a) {
        Err(e) => Err(e),
        Ok(None) => Ok(Command::Print { text: full_help(TEMPLATE_HELP) }),
        Ok(Some(st)) => {
            let Sorted { positionals, first, file, .. } = st;
            match file {
                Some(template) => {
                    if positionals.len() == 0 {
                        return Ok(Command::CheckFile { template, strict: first });
                    }
                },
                None => {
                    if positionals.len() == 1 {
                        return Ok(
                            Command::CheckModel { file: take_first(positionals), strict: first },
                        );
                    }
                },
            }
            Err(usage("template check takes FILE or --file TPL".to_string()))
        },
    }
}

fn parse_template_set(args: &Vec<String>) -> (r: Result<Command, CliError>)
    requires
        args@.len() >= 2,
    ensures
        understood(r, template_set_command(texts_view(args@))),
{
    let a = Accepts {
        write: true,
        first: "",
        second: "",
        file: true,
        preset: true,
        brief: true,
    };
    match parse_args(args, 2, &a) {
        Err(e) => Err(e),
        Ok(None) => Ok(Command::Print { text: full_help(TEMPLATE_HELP) }),
        Ok(Some(st)) => {
            if st.positionals.len() != 1 {
                return Err(
                    usage("template set takes FILE plus --preset or --file".to_string()),
                );
            }
            let Sorted { positionals, opts, file: template, preset: name, .. } = st;
            let file = take_first(positionals);
            match (name, template) {
                (Some(name), None) => match preset(name.as_str()) {
                    Some(text) => Ok(
                        Command::InstallText { file, text: text.to_string(), opts },
                    ),
                    None => {
                        let mut m = "unknown preset '".to_string();
                        m.append(name.as_str());
                        m.append("' (run 'gguf-chisel template presets')");
                        Err(failure(m))
                    },
                },
                (None, Some(template)) => Ok(Command::InstallFile { file, template, opts }),
                _ => Err(
                    usage("template set needs exactly one of --preset or --file".to_string()),
                ),
            }
        },
    }
}

fn parse_template(args: &Vec<String>) -> (r: Result<Command, CliError>)
    requires
        args@.len() > 0,
    ensures
        understood(r, template_command(texts_view(args@))),
{
    if args.len() < 2 {
        return Err(usage("template needs a subcommand: show, set, check or presets".to_string()));
    }
    let sub = args[1].as_str();
    assert(texts_view(args@)[1] == sub@);
    if str_eq(sub, "presets") {
        Ok(Command::Print { text: presets_string() })
    } else if str_eq(sub, "show") {
        parse_template_show(args)
    } else if str_eq(sub, "check") {
        parse_template_check(args)
    } else if str_eq(sub, "set") {
        parse_template_set(args)
    } else {
        let mut m = "unknown template subcommand '".to_string();
        m.append(sub);
        m.append("' (show, set, check, presets)");
        Err(usage(m))
    }
}

/// What a command line asks for (see [`command_of`]); `args` does not hold the
/// name of the program.
pub fn parse_command(args: &Vec<String>) -> (r: Result<Command, CliError>)
    ensures
        understood(r, command_of(texts_view(args@))),
{
    if args.len() == 0 {
        return Ok(Command::Print { text: HELP.to_string() });
    }
    let c = args[0].as_str();
    assert(texts_view(args@)[0] == c@);
    if str_eq(c, "-h") || str_eq(c, "--help") || str_eq(c, "help") {
        Ok(Command::Print { text: HELP.to_string() })
    } else if str_eq(c, "-V") || str_eq(c, "--version") {
        let mut text = "gguf-chisel ".to_string();
        text.append(VERSION);
        Ok(Command::Print { text })
    } else if str_eq(c, "show") {
        parse_show(args)
    } else if str_eq(c, "get") {
        parse_get(args)
    } else if str_eq(c, "set") {
        parse_set(args)
    } else if str_eq(c, "rm") {
        parse_rm(args)
    } else if str_eq(c, "rename") {
        parse_rename(args)
    } else if str_eq(c, "dump") {
        parse_dump(args)
    } else if str_eq(c, "apply") {
        parse_apply(args)
    } else if str_eq(c, "template") {
        parse_template(args)
    } else if str_eq(c, "verify") {
        parse_verify(args)
    } else if str_eq(c, "sample") {
        parse_sample(args)
    } else {
        let mut m = "unknown command '".to_string();
        m.append(c);
        m.append("' (see --help)");
        Err(usage(m))
    }
}

// ---------------------------------------------------------------------------
// Editing
// ---------------------------------------------------------------------------

/// Texts, each with a newline behind it.
pub open spec fn lines_text(lines: Seq<Seq<char>>) -> Seq<char>
    decreases lines.len(),
{
    if lines.len() == 0 {
        Seq::empty()
    } else {
        lines_text(lines.drop_last()) + lines.last() + "\n"@
    }
}

/// Texts, each with a newline behind it.
fn lines_string(lines: &Vec<String>) -> (out: String)
    ensures
        out@ == lines_text(texts_view(lines@)),
{
    let ghost all = texts_view(lines@);
    let mut out = String::new();
    let mut i: usize = 0;
    assert(out@ =~= lines_text(all.take(0)));
    while i < lines.len()
        invariant
            i <= lines@.len(),
            all == texts_view(lines@),
            out@ == lines_text(all.take(i as int)),
        decreases lines@.len() - i,
    {
        assert(all.take(i + 1).drop_last() =~= all.take(i as int));
        out.append(lines[i].as_str());
        out.append("\n");
        i += 1;
    }
    assert(all.take(i as int) =~= all);
    out
}

/// The operations that a patch document from `source` asks for.
pub open spec fn patch_ops_of(source: Seq<char>, text: Seq<char>) -> Result<
    Seq<SpecOp>,
    SpecCliError,
> {
    match document(text) {
        Err(e) => Err(failure_error(source + ": "@ + json_error_text(e))),
        Ok(doc) => match document_ops(doc) {
            Err(e) => Err(failure_error(source + ": "@ + e)),
            Ok(ops) => Ok(ops),
        },
    }
}

/// The operations that a patch document asks for; `source` names the document
/// in errors.
pub fn patch_ops(source: &str, text: &str) -> (r: Result<Vec<EditOp>, CliError>)
    requires
        byte_len(text@) < usize::MAX,
    ensures
        match (r, patch_ops_of(source@, text@)) {
            (Ok(ops), Ok(want)) => ops_view(ops@) == want,
            (Err(e), Err(f)) => e@ == f,
            _ => false,
        },
{
    let mut m = source.to_string();
    m.append(": ");
    match parse(text) {
        Err(e) => {
            m.append(e.to_text().as_str());
            Err(failure(m))
        },
        Ok(doc) => match ops_from_json(&doc) {
            Err(e) => {
                m.append(e.0.as_str());
                Err(failure(m))
            },
            Ok(ops) => Ok(ops),
        },
    }
}

/// Apply operations to the metadata of a head; returns what to print about
/// them. On an error the head is unchanged.
pub fn edit(g: &mut Gguf, ops: &[EditOp]) -> (r: Result<String, CliError>)
    ensures
        match (r, apply_all(old(g)@.kvs, ops_view(ops@))) {
            (Ok(text), Ok((kvs, lines))) => {
                &&& text@ == lines_text(lines)
                &&& final(g)@ == (SpecHead { kvs, ..old(g)@ })
                &&& final(g).file_len == old(g).file_len
            },
            (Err(e), Err(f)) => e@ == failure_error(f) && *final(g) == *old(g),
            _ => false,
        },
{
    match apply_ops(&mut g.kvs, ops) {
        Ok(summary) => Ok(lines_string(&summary.lines)),
        Err(e) => Err(failure(e.0)),
    }
}

/// What to do with an edited head.
#[derive(Debug)]
pub enum Decision {
    /// Print a text and end with an exit code; nothing is written.
    Report { text: String, code: i32 },
    /// Write `region` over the first bytes of the file, then print `text`.
    InPlace { region: Vec<u8>, text: String },
    /// Write a new file: the rewritten head, then the tensor data verbatim.
    Rewrite,
}

/// What a [`Decision`] says.
pub enum SpecDecision {
    Report { text: Seq<char>, code: int },
    InPlace { region: Seq<u8>, text: Seq<char> },
    Rewrite,
}

impl View for Decision {
    type V = SpecDecision;

    open spec fn view(&self) -> SpecDecision {
        match *self {
            Decision::Report { text, code } => SpecDecision::Report {
                text: text@,
                code: code as int,
            },
            Decision::InPlace { region, text } => SpecDecision::InPlace {
                region: region@,
                text: text@,
            },
            Decision::Rewrite => SpecDecision::Rewrite,
        }
    }
}

/// What is printed after an in-place write.
pub open spec fn patched_text(path: Seq<char>, written: nat, reserve: u64) -> Seq<char> {
    (if reserve > 0 {
        "note: --reserve only applies to rewrites; existing headroom kept\n"@
    } else {
        Seq::empty()
    }) + ("patched "@ + path + " in place: "@ + dec(written)
        + " head bytes written, tensor data untouched\n"@)
}

/// What to do with an edited head, by the write options. A dry run only reports
/// whether the head fits in place (exit code 0) or not (3). Without `-o`, a head
/// that fits is written in place, and one that does not is refused unless
/// `--rewrite` was given. Anything else is a rewrite.
pub open spec fn decision(path: Seq<char>, h: SpecHead, opts: SpecWriteOpts) -> Result<
    SpecDecision,
    SpecCliError,
> {
    let p = plan(h.version, h.kvs, h.tensors, h.data_start as nat, h.alignment as nat);
    if opts.dry_run {
        match p {
            SpecPlan::InPlace { head, zero_fill } => Ok(
                SpecDecision::Report {
                    text: "dry-run: fits in place ("@ + dec(head.len()) + " head bytes + "@ + dec(
                        zero_fill,
                    ) + " bytes of alignment padding; tensor data untouched)\n"@,
                    code: 0,
                },
            ),
            SpecPlan::NeedsRewrite { needed, available } => Ok(
                SpecDecision::Report {
                    text: "dry-run: needs a rewrite (head needs "@ + dec(needed) + " bytes, "@
                        + dec(available) + " available before tensor data)\n"@,
                    code: 3,
                },
            ),
        }
    } else {
        match (p, opts.output) {
            (SpecPlan::InPlace { head, zero_fill }, None) => Ok(
                SpecDecision::InPlace {
                    region: head + zeros(zero_fill),
                    text: patched_text(path, head.len() + zero_fill, opts.reserve),
                },
            ),
            (SpecPlan::NeedsRewrite { needed, available }, None) => if opts.rewrite {
                Ok(SpecDecision::Rewrite)
            } else {
                Err(
                    failure_error(
                        "metadata head grew beyond the available space (need "@ + dec(needed)
                            + " bytes, have "@ + dec(available)
                            + "); re-run with --rewrite (optionally -o NEW.gguf), and consider --reserve to leave headroom for future in-place edits"@,
                    ),
                )
            },
            (_, Some(_)) => Ok(SpecDecision::Rewrite),
        }
    }
}

/// A dry run writes nothing: it ends with exit code 0 where the same command
/// without it would write in place, and with 3 where the head does not fit.
pub proof fn law_dry_run_only_reports(path: Seq<char>, h: SpecHead, opts: SpecWriteOpts)
    requires
        opts.dry_run,
    ensures
        ({
            let wet = decision(
                path,
                h,
                SpecWriteOpts { dry_run: false, output: None, rewrite: false, ..opts },
            );
            &&& decision(path, h, opts) matches Ok(SpecDecision::Report { code, .. }) && (code == 0
                || code == 3) && (code == 0 <==> wet matches Ok(SpecDecision::InPlace { .. })) && (
            code == 3 <==> wet is Err)
        }),
{
}

/// Without `-o` and `--rewrite` nothing but the bytes before the tensor data is
/// ever written; with `-o` the source file is never written in place.
pub proof fn law_writes_are_where_they_were_asked_for(
    path: Seq<char>,
    h: SpecHead,
    opts: SpecWriteOpts,
)
    requires
        h.data_start >= 0,
    ensures
        decision(path, h, opts) matches Ok(SpecDecision::InPlace { region, .. }) ==> region.len()
            == h.data_start && opts.output is None,
        decision(path, h, opts) matches Ok(SpecDecision::Rewrite) ==> opts.output is Some
            || opts.rewrite,
{
    law_plan_ends_at_data_start(
        h.version,
        h.kvs,
        h.tensors,
        h.data_start as nat,
        h.alignment as nat,
    );
}

/// Decide how an edited head is written back, in place when it fits, honoring
/// the write options. This is the single choke point every mutating command
/// goes through.
pub fn commit(path: &str, g: &Gguf, opts: &WriteOpts) -> (r: Result<Decision, CliError>)
    requires
        g.data_start <= usize::MAX,
    ensures
        match (r, decision(path@, g@, opts@)) {
            (Ok(d), Ok(e)) => d@ == e,
            (Err(e), Err(f)) => e@ == f,
            _ => false,
        },
{
    let fit = plan_in_place(g.version, &g.kvs, &g.tensors, g.data_start, g.alignment);
    if opts.dry_run {
        return match fit {
            FitPlan::InPlace { head, zero_fill } => {
                let mut text = "dry-run: fits in place (".to_string();
                push_dec(&mut text, head.len() as u128);
                text.append(" head bytes + ");
                push_dec(&mut text, zero_fill as u128);
                text.append(" bytes of alignment padding; tensor data untouched)\n");
                Ok(Decision::Report { text, code: 0 })
            },
            FitPlan::NeedsRewrite { needed, available } => {
                let mut text = "dry-run: needs a rewrite (head needs ".to_string();
                push_dec(&mut text, needed as u128);
                text.append(" bytes, ");
                push_dec(&mut text, available as u128);
                text.append(" available before tensor data)\n");
                Ok(Decision::Report { text, code: 3 })
            },
        };
    }
    if opts.output.is_some() {
        // A rewrite forced by -o.
        return Ok(Decision::Rewrite);
    }
    match fit {
        FitPlan::InPlace { head, zero_fill } => {
            let region = head_region(head, zero_fill);
            let mut note = String::new();
            if opts.reserve > 0 {
                note.append(
                    "note: --reserve only applies to rewrites; existing headroom kept\n",
                );
            }
            let mut text = "patched ".to_string();
            text.append(path);
            text.append(" in place: ");
            push_dec(&mut text, region.len() as u128);
            text.append(" head bytes written, tensor data untouched\n");
            note.append(text.as_str());
            assert(note@ =~= patched_text(path@, region@.len(), opts.reserve));
            Ok(Decision::InPlace { region, text: note })
        },
        FitPlan::NeedsRewrite { needed, available } => {
            if opts.rewrite {
                return Ok(Decision::Rewrite);
            }
            let mut m = "metadata head grew beyond the available space (need ".to_string();
            push_dec(&mut m, needed as u128);
            m.append(" bytes, have ");
            push_dec(&mut m, available as u128);
            m.append(
                "); re-run with --rewrite (optionally -o NEW.gguf), and consider --reserve to leave headroom for future in-place edits",
            );
            Err(failure(m))
        },
    }
}

/// What is printed after a rewrite.
pub open spec fn rewrote_text(path: Seq<char>, head_len: u64, reserve: u64, copied: u64) -> Seq<
    char,
> {
    "rewrote "@ + path + ": "@ + dec(head_len as nat) + " head bytes"@ + (if reserve > 0 {
        " (+"@ + dec(reserve as nat) + " reserved)"@
    } else {
        Seq::empty()
    }) + ", copied "@ + size_text(copied as nat) + " of tensor data\n"@
}

/// What to print after a rewrite.
pub fn rewrote(path: &str, head_len: u64, reserve: u64, copied: u64) -> (r: String)
    ensures
        r@ == rewrote_text(path@, head_len, reserve, copied),
{
    let mut s = "rewrote ".to_string();
    s.append(path);
    s.append(": ");
    push_dec(&mut s, head_len as u128);
    s.append(" head bytes");
    let ghost before = s@;
    if reserve > 0 {
        s.append(" (+");
        push_dec(&mut s, reserve as u128);
        s.append(" reserved)");
        assert(s@ =~= before + (" (+"@ + dec(reserve as nat) + " reserved)"@));
    } else {
        assert(s@ =~= before + Seq::<char>::empty());
    }
    s.append(", copied ");
    s.append(fmt_size(copied).as_str());
    s.append(" of tensor data\n");
    s
}

// ---------------------------------------------------------------------------
// Reading commands
// ---------------------------------------------------------------------------

/// What `get` prints.
pub open spec fn get_text(
    kvs: Seq<SpecKv>,
    file: Seq<char>,
    key: Seq<char>,
    json: bool,
    raw: bool,
) -> Result<Seq<char>, SpecCliError> {
    match value_of(kvs, key) {
        None => Err(
            failure_error(
                "no such key '"@ + key + "' (run 'gguf-chisel show "@ + file + "' to list keys)"@,
            ),
        ),
        Some(v) => if json {
            Ok(
                render(
                    SpecJson::Obj(
                        seq![
                            ("key"@, SpecJson::Str(key)),
                            ("type"@, SpecJson::Str(label_text(v))),
                            ("value"@, json_of(v)),
                        ],
                    ),
                    Seq::empty(),
                    false,
                ) + "\n"@,
            )
        } else {
            match v {
                SpecValue::Str(s) => if raw {
                    Ok(s)
                } else {
                    Ok(s + "\n"@)
                },
                SpecValue::Array(_, _) => Ok(render(json_of(v), Seq::empty(), false) + "\n"@),
                _ => Ok(preview_text(v, usize::MAX as nat) + "\n"@),
            }
        },
    }
}

/// What `get` prints for a key: the bare value, or a JSON object.
pub fn get_output(g: &Gguf, file: &str, key: &str, json: bool, raw: bool) -> (r: Result<
    String,
    CliError,
>)
    ensures
        match (r, get_text(g@.kvs, file@, key@, json, raw)) {
            (Ok(s), Ok(t)) => s@ == t,
            (Err(e), Err(f)) => e@ == f,
            _ => false,
        },
{
    match g.get(key) {
        None => {
            let mut m = "no such key '".to_string();
            m.append(key);
            m.append("' (run 'gguf-chisel show ");
            m.append(file);
            m.append("' to list keys)");
            Err(failure(m))
        },
        Some(value) => {
            if json {
                let mut fields: Vec<(String, Json)> = Vec::new();
                fields.push(("key".to_string(), Json::Str(key.to_string())));
                fields.push(("type".to_string(), Json::Str(value.type_label())));
                fields.push(("value".to_string(), value_json(value)));
                proof {
                    lemma_obj_view(fields);
                    assert(pairs_view(fields@) =~= seq![
                        ("key"@, SpecJson::Str(key@)),
                        ("type"@, SpecJson::Str(label_text(value@))),
                        ("value"@, json_of(value@)),
                    ]);
                }
                let mut s = encode(&Json::Obj(fields));
                s.append("\n");
                return Ok(s);
            }
            match value {
                GgufValue::Str(text) => {
                    let mut s = text.clone();
                    if !raw {
                        s.append("\n");
                    }
                    Ok(s)
                },
                GgufValue::Array(_, _) => {
                    let mut s = encode(&value_json(value));
                    s.append("\n");
                    Ok(s)
                },
                scalar => {
                    let mut s = scalar.preview(usize::MAX);
                    s.append("\n");
                    Ok(s)
                },
            }
        },
    }
}

/// One line about a lint finding.
pub open spec fn issue_line(issue: SpecIssue) -> Seq<char> {
    "  "@ + (match issue.severity {
        Severity::Error => "error"@,
        Severity::Warning => "warning"@,
    }) + (match issue.pos {
        Some((l, c)) => " at "@ + dec(l) + ":"@ + dec(c),
        None => Seq::empty(),
    }) + ": "@ + issue.message
}

/// What is printed about lint findings.
pub open spec fn lint_text(source: Seq<char>, issues: Seq<SpecIssue>) -> Seq<char> {
    let errors = errors_among(issues);
    let warnings = (issues.len() - errors) as nat;
    source + (if errors == 0 && warnings == 0 {
        ": template OK\n"@
    } else if errors == 0 {
        ": template OK ("@ + plural_text(warnings, "warning"@) + ")\n"@
    } else {
        ": "@ + plural_text(errors, "error"@) + ", "@ + plural_text(warnings, "warning"@) + "\n"@
    }) + lines_text(Seq::new(issues.len(), |i: int| issue_line(issues[i])))
}

/// The exit code of a lint run.
pub open spec fn lint_code(issues: Seq<SpecIssue>, strict: bool) -> int {
    if errors_among(issues) > 0 || (strict && issues.len() > errors_among(issues)) {
        1
    } else {
        0
    }
}

/// One line about a lint finding.
fn issue_string(issue: &Issue) -> (s: String)
    ensures
        s@ == issue_line(issue@),
{
    let mut s = "  ".to_string();
    match issue.severity {
        Severity::Error => s.append("error"),
        Severity::Warning => s.append("warning"),
    }
    let ghost before = s@;
    match issue.pos {
        Some((l, c)) => {
            s.append(" at ");
            push_dec(&mut s, l as u128);
            s.append(":");
            push_dec(&mut s, c as u128);
            assert(s@ =~= before + (" at "@ + dec(l as nat) + ":"@ + dec(c as nat)));
        },
        None => {
            assert(s@ =~= before + Seq::<char>::empty());
        },
    }
    s.append(": ");
    s.append(issue.message.as_str());
    s
}

/// What to print about lint findings, and the exit code.
pub fn lint_report(source: &str, issues: &[Issue], strict: bool) -> (r: (String, i32))
    ensures
        r.0@ == lint_text(source@, issues_view(issues@)),
        r.1 == lint_code(issues_view(issues@), strict),
{
    let ghost all = issues_view(issues@);
    let errors: usize = error_count(issues);
    proof {
        lemma_errors_among(all);
    }
    let warnings: usize = issues.len() - errors;
    let mut head = String::new();
    if errors == 0 && warnings == 0 {
        head.append(": template OK\n");
        assert(head@ =~= ": template OK\n"@);
    } else if errors == 0 {
        head.append(": template OK (");
        head.append(plural(warnings, "warning").as_str());
        head.append(")\n");
        assert(head@ =~= ": template OK ("@ + plural_text(warnings as nat, "warning"@) + ")\n"@);
    } else {
        head.append(": ");
        head.append(plural(errors, "error").as_str());
        head.append(", ");
        head.append(plural(warnings, "warning").as_str());
        head.append("\n");
        assert(head@ =~= ": "@ + plural_text(errors as nat, "error"@) + ", "@ + plural_text(
            warnings as nat,
            "warning"@,
        ) + "\n"@);
    }
    let ghost wanted = Seq::new(all.len(), |i: int| issue_line(all[i]));
    let mut lines: Vec<String> = Vec::new();
    let mut i: usize = 0;
    assert(texts_view(lines@) =~= wanted.take(0));
    while i < issues.len()
        invariant
            i <= issues@.len(),
            all == issues_view(issues@),
            wanted == Seq::new(all.len(), |i: int| issue_line(all[i])),
            texts_view(lines@) == wanted.take(i as int),
        decreases issues@.len() - i,
    {
        let ghost before = texts_view(lines@);
        let line = issue_string(&issues[i]);
        lines.push(line);
        assert(texts_view(lines@) =~= before.push(wanted[i as int]));
        i += 1;
        assert(texts_view(lines@) =~= wanted.take(i as int));
    }
    assert(wanted.take(i as int) =~= wanted);
    let mut out = source.to_string();
    out.append(head.as_str());
    out.append(lines_string(&lines).as_str());
    let code: i32 = if errors > 0 || (strict && warnings > 0) {
        1
    } else {
        0
    };
    (out, code)
}

/// The chat template of a head, or why there is none.
pub open spec fn template_of(kvs: Seq<SpecKv>, file: Seq<char>) -> Result<
    Seq<char>,
    SpecCliError,
> {
    match value_of(kvs, CHAT_TEMPLATE_KEY@) {
        Some(SpecValue::Str(s)) => Ok(s),
        Some(v) => Err(
            failure_error(
                CHAT_TEMPLATE_KEY@ + " is "@ + label_text(v) + " rather than a string"@,
            ),
        ),
        None => Err(
            failure_error(
                file + " has no "@ + CHAT_TEMPLATE_KEY@ + "; set one with 'template set'"@,
            ),
        ),
    }
}

/// The chat template of a head, or why there is none.
pub fn template_source(g: &Gguf, file: &str) -> (r: Result<String, CliError>)
    ensures
        match (r, template_of(g@.kvs, file@)) {
            (Ok(s), Ok(t)) => s@ == t,
            (Err(e), Err(f)) => e@ == f,
            _ => false,
        },
{
    match g.get(CHAT_TEMPLATE_KEY) {
        Some(GgufValue::Str(s)) => Ok(s.clone()),
        Some(v) => {
            let mut m = CHAT_TEMPLATE_KEY.to_string();
            m.append(" is ");
            m.append(v.type_label().as_str());
            m.append(" rather than a string");
            Err(failure(m))
        },
        None => {
            let mut m = file.to_string();
            m.append(" has no ");
            m.append(CHAT_TEMPLATE_KEY);
            m.append("; set one with 'template set'");
            Err(failure(m))
        },
    }
}

/// What `template check` prints about the template of a head, and the exit code.
pub open spec fn model_lint(kvs: Seq<SpecKv>, file: Seq<char>, strict: bool) -> Result<
    (Seq<char>, int),
    SpecCliError,
> {
    match template_of(kvs, file) {
        Err(e) => Err(e),
        Ok(text) => Ok(
            (
                lint_text(file + ":"@ + CHAT_TEMPLATE_KEY@, findings(text)),
                lint_code(findings(text), strict),
            ),
        ),
    }
}

/// What `template check` prints about the template of a head, and the exit code.
pub fn check_model(g: &Gguf, file: &str, strict: bool) -> (r: Result<(String, i32), CliError>)
    ensures
        match (r, model_lint(g@.kvs, file@, strict)) {
            (Ok(out), Ok(want)) => out.0@ == want.0 && out.1 == want.1,
            (Err(e), Err(f)) => e@ == f,
            _ => false,
        },
{
    match template_source(g, file) {
        Err(e) => Err(e),
        Ok(text) => {
            let mut source = file.to_string();
            source.append(":");
            source.append(CHAT_TEMPLATE_KEY);
            let issues = lint(text.as_str());
            Ok(lint_report(source.as_str(), &issues, strict))
        },
    }
}

/// The operation that installs a template without lint errors; for one with
/// errors, what to print about it before refusing.
pub fn install_template(text: String) -> (r: Result<EditOp, (String, CliError)>)
    ensures
        match r {
            Ok(op) => errors_among(findings(text@)) == 0 && op@ == (SpecOp::Assign {
                key: CHAT_TEMPLATE_KEY@,
                spec: SpecValueSpec::Typed(SpecValue::Str(text@)),
            }),
            Err((out, e)) => errors_among(findings(text@)) > 0 && out@ == lint_text(
                "new template"@,
                findings(text@),
            ) && e@ == failure_error(
                "refusing to install a template with lint errors (fix it, or check with 'template check --file')"@,
            ),
        },
{
    let issues = lint(text.as_str());
    if error_count(&issues) > 0 {
        let (out, _) = lint_report("new template", &issues, false);
        return Err(
            (
                out,
                failure(
                    "refusing to install a template with lint errors (fix it, or check with 'template check --file')".to_string(),
                ),
            ),
        );
    }
    Ok(
        EditOp::Assign {
            key: CHAT_TEMPLATE_KEY.to_string(),
            spec: ValueSpec::Typed(GgufValue::Str(text)),
        },
    )
}

/// What `verify` prints.
pub open spec fn verify_text(file: Seq<char>, h: SpecHead, file_len: nat, f: Findings) -> Seq<
    char,
> {
    file + (if f.errors.len() == 0 {
        if f.warnings.len() == 0 {
            ": OK\n"@
        } else {
            ": OK ("@ + plural_text(f.warnings.len(), "warning"@) + ")\n"@
        }
    } else {
        ": "@ + plural_text(f.errors.len(), "error"@) + ", "@ + plural_text(
            f.warnings.len(),
            "warning"@,
        ) + "\n"@
    }) + ("  gguf v"@ + dec(h.version as nat) + ", "@ + dec(h.kvs.len()) + " metadata "@ + (
    if h.kvs.len() == 1 {
        "key"@
    } else {
        "keys"@
    }) + ", "@ + plural_text(h.tensors.len(), "tensor"@) + ", data section "@ + size_text(
        data_length(h, file_len),
    ) + "\n"@) + lines_text(
        Seq::new(f.errors.len(), |i: int| "  error: "@ + f.errors[i]),
    ) + lines_text(Seq::new(f.warnings.len(), |i: int| "  warning: "@ + f.warnings[i]))
}

/// Texts, each behind a label.
fn labelled(label: &str, texts: &Vec<String>) -> (r: Vec<String>)
    ensures
        texts_view(r@) == Seq::new(texts@.len(), |i: int| label@ + texts_view(texts@)[i]),
{
    let ghost wanted = Seq::new(texts@.len(), |i: int| label@ + texts_view(texts@)[i]);
    let mut out: Vec<String> = Vec::new();
    let mut i: usize = 0;
    assert(texts_view(out@) =~= wanted.take(0));
    while i < texts.len()
        invariant
            i <= texts@.len(),
            wanted == Seq::new(texts@.len(), |i: int| label@ + texts_view(texts@)[i]),
            texts_view(out@) == wanted.take(i as int),
        decreases texts@.len() - i,
    {
        let ghost before = texts_view(out@);
        let mut line = label.to_string();
        line.append(texts[i].as_str());
        out.push(line);
        assert(texts_view(out@) =~= before.push(wanted[i as int]));
        i += 1;
        assert(texts_view(out@) =~= wanted.take(i as int));
    }
    assert(wanted.take(i as int) =~= wanted);
    out
}

/// What `verify` prints about a head and its report, and the exit code: 0 when
/// there are no errors (warnings allowed), else 1.
pub fn verify_report(file: &str, g: &Gguf, report: &Report) -> (r: (String, i32))
    ensures
        r.0@ == verify_text(file@, g@, g.file_len as nat, report@),
        r.1 == if report@.errors.len() == 0 {
            0i32
        } else {
            1i32
        },
{
    let mut head = String::new();
    if report.ok() {
        if report.warnings.len() == 0 {
            head.append(": OK\n");
            assert(head@ =~= ": OK\n"@);
        } else {
            head.append(": OK (");
            head.append(plural(report.warnings.len(), "warning").as_str());
            head.append(")\n");
            assert(head@ =~= ": OK ("@ + plural_text(report@.warnings.len(), "warning"@)
                + ")\n"@);
        }
    } else {
        head.append(": ");
        head.append(plural(report.errors.len(), "error").as_str());
        head.append(", ");
        head.append(plural(report.warnings.len(), "warning").as_str());
        head.append("\n");
        assert(head@ =~= ": "@ + plural_text(report@.errors.len(), "error"@) + ", "@ + plural_text(
            report@.warnings.len(),
            "warning"@,
        ) + "\n"@);
    }
    let mut facts = "  gguf v".to_string();
    push_dec(&mut facts, g.version as u128);
    facts.append(", ");
    push_dec(&mut facts, g.kvs.len() as u128);
    facts.append(" metadata ");
    if g.kvs.len() == 1 {
        facts.append("key");
    } else {
        facts.append("keys");
    }
    facts.append(", ");
    facts.append(plural(g.tensors.len(), "tensor").as_str());
    facts.append(", data section ");
    facts.append(fmt_size(g.data_len()).as_str());
    facts.append("\n");
    let errors = labelled("  error: ", &report.errors);
    let warnings = labelled("  warning: ", &report.warnings);
    let mut out = file.to_string();
    out.append(head.as_str());
    out.append(facts.as_str());
    out.append(lines_string(&errors).as_str());
    out.append(lines_string(&warnings).as_str());
    (
        out,
        if report.ok() {
            0
        } else {
            1
        },
    )
}

/// What `sample` prints.
pub open spec fn sample_text(file: Seq<char>, len: nat) -> Seq<char> {
    "wrote sample GGUF: "@ + file + " ("@ + dec(len) + " bytes, 2 tensors, 9 metadata keys)\n"@
}

/// What `sample` prints.
pub fn sample_report(file: &str, len: usize) -> (r: String)
    ensures
        r@ == sample_text(file@, len as nat),
{
    let mut s = "wrote sample GGUF: ".to_string();
    s.append(file);
    s.append(" (");
    push_dec(&mut s, len as u128);
    s.append(" bytes, 2 tensors, 9 metadata keys)\n");
    s
}

} // verus!
