//! What the commands do: how their arguments are understood, when a file is
//! written and how, what `get` prints, and with which exit codes they end.

use crate::cli::{
    command_of, decision, failure_error, get_text, install_accepts, lint_code, model_lint, no_opts,
    nothing_sorted, reads_only, sort_from, template_of, usage_error, writes, Accepts, SpecCommand,
    SpecDecision, SpecSorted, SpecWriteOpts,
};
use crate::dump::json_of;
use crate::dumped::field;
use crate::float::display_64;
use crate::json::{document, render, SpecJson, MAX_DEPTH};
use crate::layout::{
    data_section, law_in_place_edit_keeps_tensor_data, overwritten, pad_is_readable,
};
use crate::nesting::law_no_errors_means_warnings_only;
use crate::patch::{all_ok, set_op, size_of_text, SpecOp};
use crate::template::{findings, preset_source, Severity, SpecIssue};
use crate::text::{dec, int_text};
use crate::types::{label_text, SpecKv, SpecValue};
use crate::wire::{alignment_of, head_of, value_of, wf_head, HeadError, SpecHead};
use crate::writer::{plan, stripped};
use vstd::prelude::*;
use vstd::string::*;

verus! {

// ---------------------------------------------------------------------------
// Exit codes
// ---------------------------------------------------------------------------

/// Mistakes in the arguments end with 2, failures with 1.
pub proof fn law_error_codes(message: Seq<char>)
    ensures
        usage_error(message).code == 2,
        failure_error(message).code == 1,
        usage_error(message).message == message,
        failure_error(message).message == message,
{
}

/// Linting ends with 0 exactly where there are warnings at most, or nothing at
/// all when it is strict, and else with 1.
pub proof fn law_lint_codes(issues: Seq<SpecIssue>)
    ensures
        lint_code(issues, false) == 0 || lint_code(issues, false) == 1,
        lint_code(issues, true) == 0 || lint_code(issues, true) == 1,
        lint_code(issues, false) == 0 <==> forall|k: int|
            0 <= k < issues.len() ==> (#[trigger] issues[k]).severity == Severity::Warning,
        lint_code(issues, true) == 0 <==> issues.len() == 0,
{
    law_no_errors_means_warnings_only(issues);
    crate::template::lemma_errors_among(issues);
}

// ---------------------------------------------------------------------------
// Writing
// ---------------------------------------------------------------------------

/// An edited head fits in front of the tensor data.
pub open spec fn fits(h: SpecHead) -> bool {
    plan(h.version, h.kvs, h.tensors, h.data_start as nat, h.alignment as nat) is InPlace
}

/// When something is written, and how. A dry run only reports: with 0 where the
/// head fits and with 3 where it does not. Else a new file is written wherever
/// one is named; without one a head that fits is written in place, and one that
/// does not is refused, unless a rewrite is allowed.
pub proof fn law_when_files_are_written(path: Seq<char>, h: SpecHead, opts: SpecWriteOpts)
    ensures
        ({
            let d = decision(path, h, opts);
            &&& opts.dry_run && fits(h) ==> (d matches Ok(SpecDecision::Report { code, .. }) && code
                == 0)
            &&& opts.dry_run && !fits(h) ==> (d matches Ok(SpecDecision::Report { code, .. })
                && code == 3)
            &&& !opts.dry_run && opts.output is Some ==> d == Ok::<
                SpecDecision,
                crate::cli::SpecCliError,
            >(SpecDecision::Rewrite)
            &&& !opts.dry_run && opts.output is None && fits(h) ==> (d matches Ok(
                SpecDecision::InPlace { .. },
            ))
            &&& !opts.dry_run && opts.output is None && !fits(h) && opts.rewrite ==> d == Ok::<
                SpecDecision,
                crate::cli::SpecCliError,
            >(SpecDecision::Rewrite)
            &&& !opts.dry_run && opts.output is None && !fits(h) && !opts.rewrite ==> (d matches Err(
                e,
            ) && e.code == 1)
        }),
{
}

/// What is written in place over a file leaves every byte of tensor data as it
/// was, and the file reads back with the edited metadata, the same tensors and
/// the same data offset.
pub proof fn law_what_is_written_in_place_is_read_back(
    path: Seq<char>,
    file: Seq<u8>,
    kvs: Seq<SpecKv>,
    opts: SpecWriteOpts,
)
    requires
        head_of(file) is Ok,
        head_of(file) matches Ok(h) ==> {
            &&& wf_head(h.version, stripped(kvs), h.tensors)
            &&& alignment_of(kvs, 0) == Ok::<u64, HeadError>(h.alignment)
            &&& pad_is_readable(h.version, kvs, h.tensors, h.data_start as nat)
        },
    ensures
        head_of(file) matches Ok(h) ==> (decision(path, (SpecHead { kvs, ..h }), opts) matches Ok(
            SpecDecision::InPlace { region, .. },
        ) ==> {
            let edited = overwritten(file, region);
            &&& region.len() == h.data_start
            &&& head_of(edited) matches Ok(after) && {
                &&& stripped(after.kvs) == stripped(kvs)
                &&& after.version == h.version
                &&& after.tensors == h.tensors
                &&& after.alignment == h.alignment
                &&& after.data_start == h.data_start
            }
            &&& data_section(edited, h.data_start) == data_section(file, h.data_start)
        }),
{
    let h = head_of(file)->Ok_0;
    if decision(path, (SpecHead { kvs, ..h }), opts) matches Ok(SpecDecision::InPlace { .. }) {
        law_in_place_edit_keeps_tensor_data(file, kvs);
    }
}

// ---------------------------------------------------------------------------
// Printing a value
// ---------------------------------------------------------------------------

/// `get` fails exactly where there is no such key. It prints a string as it is,
/// and a line break behind it unless the raw string is asked for; an integer in
/// decimal, a bool as `true` or `false`, and an array as the JSON that it is
/// dumped as.
pub proof fn law_get_prints_the_value(
    kvs: Seq<SpecKv>,
    file: Seq<char>,
    key: Seq<char>,
    json: bool,
    raw: bool,
)
    ensures
        get_text(kvs, file, key, json, raw) is Err <==> value_of(kvs, key) is None,
        get_text(kvs, file, key, json, raw) matches Err(e) ==> e.code == 1,
        value_of(kvs, key) matches Some(v) ==> (!json ==> {
            let out = get_text(kvs, file, key, false, raw)->Ok_0;
            match v {
                SpecValue::Str(s) => out == if raw {
                    s
                } else {
                    s + seq!['\n']
                },
                SpecValue::U8(x) => out == int_text(x as int) + seq!['\n'],
                SpecValue::I8(x) => out == int_text(x as int) + seq!['\n'],
                SpecValue::U16(x) => out == int_text(x as int) + seq!['\n'],
                SpecValue::I16(x) => out == int_text(x as int) + seq!['\n'],
                SpecValue::U32(x) => out == int_text(x as int) + seq!['\n'],
                SpecValue::I32(x) => out == int_text(x as int) + seq!['\n'],
                SpecValue::U64(x) => out == int_text(x as int) + seq!['\n'],
                SpecValue::I64(x) => out == int_text(x as int) + seq!['\n'],
                SpecValue::Bool(x) => out == (if x {
                    "true"@
                } else {
                    "false"@
                }) + seq!['\n'],
                SpecValue::F32(x) => out == crate::float::display_32(x) + seq!['\n'],
                SpecValue::F64(x) => out == display_64(x) + seq!['\n'],
                SpecValue::Array(_, _) => out == render(json_of(v), Seq::empty(), false)
                    + seq!['\n'],
            }
        }),
{
    reveal_strlit("\n");
    assert("\n"@ =~= seq!['\n']);
}

/// The field names of what `get` prints as JSON.
proof fn lemma_get_names()
    ensures
        "key"@.len() == 3,
        "type"@.len() == 4,
        "value"@.len() == 5,
{
    reveal_strlit("key");
    reveal_strlit("type");
    reveal_strlit("value");
}

/// As JSON, `get` prints an object that tells the key, the type and the value.
pub proof fn law_get_prints_json(kvs: Seq<SpecKv>, file: Seq<char>, key: Seq<char>, raw: bool)
    requires
        value_of(kvs, key) matches Some(v) && crate::reparse::readable(
            json_of(v),
            MAX_DEPTH as nat,
        ),
    ensures
        ({
            let v = value_of(kvs, key)->Some_0;
            &&& get_text(kvs, file, key, true, raw) matches Ok(out) && {
                &&& out.len() > 0
                &&& out.last() == '\n'
                &&& document(out.drop_last()) matches Ok(doc) && {
                    &&& field(doc, "key"@) == Some(SpecJson::Str(key))
                    &&& field(doc, "type"@) == Some(SpecJson::Str(label_text(v)))
                    &&& field(doc, "value"@) == Some(crate::reparse::plain(json_of(v)))
                }
            }
        }),
{
    let v = value_of(kvs, key)->Some_0;
    let pairs = seq![
        ("key"@, SpecJson::Str(key)),
        ("type"@, SpecJson::Str(label_text(v))),
        ("value"@, json_of(v)),
    ];
    let doc = SpecJson::Obj(pairs);
    let out = render(doc, Seq::empty(), false);
    reveal_strlit("\n");
    assert("\n"@ =~= seq!['\n']);
    assert((out + "\n"@).drop_last() =~= out);
    assert forall|i: int| 0 <= i < pairs.len() implies crate::reparse::readable(
        (#[trigger] pairs[i]).1,
        MAX_DEPTH as nat,
    ) by {}
    crate::reparse::law_written_json_is_read_back(doc, false);
    lemma_get_names();
    crate::dumped::lemma_field_at(pairs, 0);
    crate::dumped::lemma_field_at(pairs, 1);
    crate::dumped::lemma_field_at(pairs, 2);
}

/// The chat template of a head is the string under its key, and where there is
/// none, or something else, that is a failure. Checking a model lints that text.
pub proof fn law_template_is_the_string_under_its_key(
    kvs: Seq<SpecKv>,
    file: Seq<char>,
    strict: bool,
)
    ensures
        match value_of(kvs, "tokenizer.chat_template"@) {
            Some(SpecValue::Str(text)) => template_of(kvs, file) == Ok::<
                Seq<char>,
                crate::cli::SpecCliError,
            >(text) && (model_lint(kvs, file, strict) matches Ok((_, code)) && code == lint_code(
                findings(text),
                strict,
            )),
            _ => (template_of(kvs, file) matches Err(e) && e.code == 1) && model_lint(
                kvs,
                file,
                strict,
            ) is Err,
        },
{
}

// ---------------------------------------------------------------------------
// Options
// ---------------------------------------------------------------------------

/// Write options as they are given on a command line.
pub open spec fn option_args(opts: SpecWriteOpts) -> Seq<Seq<char>> {
    (if opts.dry_run {
        seq!["--dry-run"@]
    } else {
        Seq::empty()
    }) + (if opts.rewrite {
        seq!["--rewrite"@]
    } else {
        Seq::empty()
    }) + (match opts.output {
        Some(path) => seq!["-o"@, path],
        None => Seq::empty(),
    }) + (if opts.reserve > 0 {
        seq!["--reserve"@, dec(opts.reserve as nat)]
    } else {
        Seq::empty()
    })
}

/// A positional argument: it does not start with a dash.
pub open spec fn is_positional(arg: Seq<char>) -> bool {
    arg.len() == 0 || arg[0] != '-'
}

/// The options start with dashes, and differ.
pub proof fn lemma_option_names()
    ensures
        "--dry-run"@.len() == 9 && "--dry-run"@[0] == '-',
        "--rewrite"@.len() == 9 && "--rewrite"@[0] == '-' && "--rewrite"@[2] == 'r',
        "--dry-run"@[2] == 'd',
        "--reserve"@.len() == 9 && "--reserve"@[0] == '-' && "--reserve"@[2] == 'r',
        "--rewrite"@[4] == 'w',
        "--reserve"@[4] == 's',
        "-o"@.len() == 2 && "-o"@[0] == '-' && "-o"@[1] == 'o',
        "-h"@.len() == 2 && "-h"@[0] == '-' && "-h"@[1] == 'h',
        "--help"@.len() == 6 && "--help"@[0] == '-' && "--help"@[2] == 'h',
        "--file"@.len() == 6 && "--file"@[0] == '-' && "--file"@[2] == 'f',
        "--preset"@.len() == 8 && "--preset"@[0] == '-',
        "--output"@.len() == 8 && "--output"@[0] == '-' && "--output"@[2] == 'o',
        ""@.len() == 0,
        "--tensors"@.len() == 9 && "--tensors"@[0] == '-',
        "--json"@.len() == 6 && "--json"@[0] == '-' && "--json"@[2] == 'j',
        "--raw"@.len() == 5 && "--raw"@[0] == '-',
        "--strict"@.len() == 8 && "--strict"@[0] == '-' && "--strict"@[2] == 's',
        "--preset"@[2] == 'p',
{
    reveal_strlit("--dry-run");
    reveal_strlit("--rewrite");
    reveal_strlit("--reserve");
    reveal_strlit("-o");
    reveal_strlit("-h");
    reveal_strlit("--help");
    reveal_strlit("--file");
    reveal_strlit("--preset");
    reveal_strlit("--output");
    reveal_strlit("");
    reveal_strlit("--tensors");
    reveal_strlit("--json");
    reveal_strlit("--raw");
    reveal_strlit("--strict");
}

/// The flags that a command accepts start with dashes.
pub open spec fn flags_dashed(a: Accepts) -> bool {
    &&& a.first@.len() == 0 || a.first@[0] == '-'
    &&& a.second@.len() == 0 || a.second@[0] == '-'
}

/// Positional arguments are gathered, in order.
pub proof fn lemma_positionals(
    args: Seq<Seq<char>>,
    i: int,
    n: int,
    a: Accepts,
    st: SpecSorted,
)
    requires
        0 <= i <= n <= args.len(),
        flags_dashed(a),
        forall|k: int| i <= k < n ==> is_positional(#[trigger] args[k]),
    ensures
        sort_from(args, i, a, st) == sort_from(
            args,
            n,
            a,
            (SpecSorted { positionals: st.positionals + args.subrange(i, n), ..st }),
        ),
    decreases n - i,
{
    if i == n {
        assert(st.positionals + args.subrange(i, n) =~= st.positionals);
    } else {
        lemma_option_names();
        assert(is_positional(args[i]));
        let next = SpecSorted { positionals: st.positionals.push(args[i]), ..st };
        lemma_positionals(args, i + 1, n, a, next);
        assert(next.positionals + args.subrange(i + 1, n) =~= st.positionals + args.subrange(i, n));
    }
}

/// One write option.
proof fn lemma_flag(args: Seq<Seq<char>>, i: int, a: Accepts, st: SpecSorted)
    requires
        0 <= i < args.len(),
        a.write,
        a.first@.len() == 0,
        a.second@.len() == 0,
    ensures
        args[i] == "--dry-run"@ ==> sort_from(args, i, a, st) == sort_from(
            args,
            i + 1,
            a,
            (SpecSorted { opts: SpecWriteOpts { dry_run: true, ..st.opts }, ..st }),
        ),
        args[i] == "--rewrite"@ ==> sort_from(args, i, a, st) == sort_from(
            args,
            i + 1,
            a,
            (SpecSorted { opts: SpecWriteOpts { rewrite: true, ..st.opts }, ..st }),
        ),
        (args[i] == "-o"@ || args[i] == "--output"@) && i + 1 < args.len() ==> sort_from(
            args,
            i,
            a,
            st,
        ) == sort_from(
            args,
            i + 2,
            a,
            (SpecSorted { opts: SpecWriteOpts { output: Some(args[i + 1]), ..st.opts }, ..st }),
        ),
        args[i] == "--reserve"@ && i + 1 < args.len() ==> (size_of_text(args[i + 1]) matches Ok(n)
            ==> sort_from(args, i, a, st) == sort_from(
            args,
            i + 2,
            a,
            (SpecSorted { opts: SpecWriteOpts { reserve: n, ..st.opts }, ..st }),
        )),
{
    lemma_option_names();
}

/// Positional arguments and write options are understood as what they are: the
/// arguments in order, and the very options that were given.
pub proof fn law_options_are_understood(
    words: Seq<Seq<char>>,
    pos: Seq<Seq<char>>,
    opts: SpecWriteOpts,
    a: Accepts,
)
    requires
        a.write,
        a.first@.len() == 0,
        a.second@.len() == 0,
        forall|k: int| 0 <= k < pos.len() ==> is_positional(#[trigger] pos[k]),
    ensures
        sort_from(words + pos + option_args(opts), words.len() as int, a, nothing_sorted()) == Ok::<
            Option<SpecSorted>,
            crate::cli::SpecCliError,
        >(Some(SpecSorted { positionals: pos, opts, ..nothing_sorted() })),
{
    let flags = option_args(opts);
    let args = words + pos + flags;
    let start = words.len() as int;
    let n = start + pos.len() as int;
    assert forall|k: int| start <= k < n implies is_positional(#[trigger] args[k]) by {
        assert(args[k] == pos[k - start]);
    }
    lemma_positionals(args, start, n, a, nothing_sorted());
    assert(nothing_sorted().positionals + args.subrange(start, n) =~= pos);
    let s0 = SpecSorted { positionals: pos, ..nothing_sorted() };
    let i0 = n;
    let s1 = SpecSorted { opts: SpecWriteOpts { dry_run: opts.dry_run, ..s0.opts }, ..s0 };
    let i1 = if opts.dry_run {
        i0 + 1
    } else {
        i0
    };
    if opts.dry_run {
        assert(args[i0] == flags[0]);
        lemma_flag(args, i0, a, s0);
    }
    assert(sort_from(args, i0, a, s0) == sort_from(args, i1, a, s1));
    let s2 = SpecSorted { opts: SpecWriteOpts { rewrite: opts.rewrite, ..s1.opts }, ..s1 };
    let i2 = if opts.rewrite {
        i1 + 1
    } else {
        i1
    };
    if opts.rewrite {
        assert(args[i1] == flags[i1 - n]);
        lemma_flag(args, i1, a, s1);
    }
    assert(sort_from(args, i1, a, s1) == sort_from(args, i2, a, s2));
    let s3 = SpecSorted { opts: SpecWriteOpts { output: opts.output, ..s2.opts }, ..s2 };
    let i3 = if opts.output is Some {
        i2 + 2
    } else {
        i2
    };
    if opts.output is Some {
        assert(args[i2] == flags[i2 - n]);
        assert(args[i2 + 1] == flags[i2 + 1 - n]);
        lemma_flag(args, i2, a, s2);
    }
    assert(sort_from(args, i2, a, s2) == sort_from(args, i3, a, s3));
    let s4 = SpecSorted { opts: SpecWriteOpts { reserve: opts.reserve, ..s3.opts }, ..s3 };
    let i4 = if opts.reserve > 0 {
        i3 + 2
    } else {
        i3
    };
    if opts.reserve > 0 {
        assert(args[i3] == flags[i3 - n]);
        assert(args[i3 + 1] == flags[i3 + 1 - n]);
        crate::editing::law_sizes(opts.reserve as nat, 'K');
        lemma_flag(args, i3, a, s3);
    }
    assert(sort_from(args, i3, a, s3) == sort_from(args, i4, a, s4));
    assert(i4 == args.len());
}

// ---------------------------------------------------------------------------
// Commands
// ---------------------------------------------------------------------------

/// The names of the commands differ.
pub proof fn lemma_command_names()
    ensures
        "-h"@.len() == 2 && "-h"@[0] == '-',
        "--help"@.len() == 6 && "--help"@[0] == '-',
        "help"@.len() == 4 && "help"@[0] == 'h',
        "-V"@.len() == 2 && "-V"@[0] == '-',
        "--version"@.len() == 9,
        "show"@.len() == 4 && "show"@[0] == 's',
        "get"@.len() == 3 && "get"@[0] == 'g',
        "set"@.len() == 3 && "set"@[0] == 's',
        "rm"@.len() == 2 && "rm"@[0] == 'r',
        "rename"@.len() == 6 && "rename"@[0] == 'r',
        "dump"@.len() == 4 && "dump"@[0] == 'd',
        "apply"@.len() == 5 && "apply"@[0] == 'a',
        "template"@.len() == 8,
        "verify"@.len() == 6 && "verify"@[0] == 'v',
        "sample"@.len() == 6 && "sample"@[0] == 's',
        "presets"@.len() == 7,
        "check"@.len() == 5 && "check"@[0] == 'c',
{
    reveal_strlit("-h");
    reveal_strlit("--help");
    reveal_strlit("help");
    reveal_strlit("-V");
    reveal_strlit("--version");
    reveal_strlit("show");
    reveal_strlit("get");
    reveal_strlit("set");
    reveal_strlit("rm");
    reveal_strlit("rename");
    reveal_strlit("dump");
    reveal_strlit("apply");
    reveal_strlit("template");
    reveal_strlit("verify");
    reveal_strlit("sample");
    reveal_strlit("presets");
    reveal_strlit("check");
}

/// A command line of a command that writes: its name, its arguments, its options.
pub open spec fn write_line(
    name: Seq<char>,
    pos: Seq<Seq<char>>,
    opts: SpecWriteOpts,
) -> Seq<Seq<char>> {
    seq![name] + pos + option_args(opts)
}

/// What a command line is understood as.
pub open spec fn means(args: Seq<Seq<char>>, c: SpecCommand) -> bool {
    command_of(args) == Ok::<SpecCommand, crate::cli::SpecCliError>(c)
}

/// All arguments are positional.
pub open spec fn all_positional(pos: Seq<Seq<char>>) -> bool {
    forall|k: int| 0 <= k < pos.len() ==> is_positional(#[trigger] pos[k])
}

/// `set FILE KEY=VALUE...` assigns what each argument says, in order, with the
/// options that were given.
pub proof fn law_set_command(
    file: Seq<char>,
    assignments: Seq<Seq<char>>,
    ops: Seq<SpecOp>,
    opts: SpecWriteOpts,
)
    requires
        is_positional(file),
        all_positional(assignments),
        assignments.len() > 0,
        ops.len() == assignments.len(),
        forall|k: int|
            0 <= k < ops.len() ==> set_op(#[trigger] assignments[k]) == Ok::<SpecOp, Seq<char>>(
                ops[k],
            ),
    ensures
        means(write_line("set"@, seq![file] + assignments, opts), SpecCommand::Edit { file, ops, opts }),
{
    let pos = seq![file] + assignments;
    let args = write_line("set"@, pos, opts);
    lemma_option_names();
    lemma_command_names();
    assert forall|k: int| 0 <= k < pos.len() implies is_positional(#[trigger] pos[k]) by {
        if k > 0 {
            assert(pos[k] == assignments[k - 1]);
        }
    }
    law_options_are_understood(seq!["set"@], pos, opts, writes());
    assert(args[0] == "set"@);
    let results = Seq::new((pos.len() - 1) as nat, |i: int| set_op(pos[i + 1]));
    crate::documents::lemma_all_ok_each(results);
    assert forall|k: int| 0 <= k < results.len() implies #[trigger] results[k] == Ok::<
        SpecOp,
        Seq<char>,
    >(ops[k]) by {
        assert(pos[k + 1] == assignments[k]);
        assert(set_op(assignments[k]) == Ok::<SpecOp, Seq<char>>(ops[k]));
    }
    let done = all_ok(results)->Ok_0;
    assert forall|k: int| 0 <= k < ops.len() implies done[k] == ops[k] by {
        assert(results[k] == Ok::<SpecOp, Seq<char>>(done[k]));
    }
    assert(done =~= ops);
}

/// `rm FILE KEY...` removes each key, in order; `rename FILE OLD NEW` renames the
/// old key to the new; `apply FILE PATCH` applies the patch; each with the
/// options that were given.
pub proof fn law_rm_rename_and_apply_commands(
    file: Seq<char>,
    keys: Seq<Seq<char>>,
    from: Seq<char>,
    to: Seq<char>,
    opts: SpecWriteOpts,
)
    requires
        is_positional(file),
        is_positional(from),
        is_positional(to),
        all_positional(keys),
        keys.len() > 0,
    ensures
        command_of(write_line("rm"@, seq![file] + keys, opts)) matches Ok(
            SpecCommand::Edit { file: f, ops, opts: o },
        ) && f == file && o == opts && ops.len() == keys.len() && forall|k: int|
            0 <= k < keys.len() ==> #[trigger] ops[k] == (SpecOp::Remove { key: keys[k] }),
        means(
            write_line("rename"@, seq![file, from, to], opts),
            SpecCommand::Edit { file, ops: seq![SpecOp::Rename { from, to }], opts },
        ),
        means(
            write_line("apply"@, seq![file, from], opts),
            SpecCommand::Apply { file, patch: from, opts },
        ),
{
    lemma_option_names();
    lemma_command_names();
    let pos = seq![file] + keys;
    assert forall|k: int| 0 <= k < pos.len() implies is_positional(#[trigger] pos[k]) by {
        if k > 0 {
            assert(pos[k] == keys[k - 1]);
        }
    }
    law_options_are_understood(seq!["rm"@], pos, opts, writes());
    law_options_are_understood(seq!["rename"@], seq![file, from, to], opts, writes());
    law_options_are_understood(seq!["apply"@], seq![file, from], opts, writes());
    assert(write_line("rm"@, pos, opts)[0] == "rm"@);
    assert(write_line("rename"@, seq![file, from, to], opts)[0] == "rename"@);
    assert(write_line("apply"@, seq![file, from], opts)[0] == "apply"@);
    let ops = Seq::new((pos.len() - 1) as nat, |i: int| SpecOp::Remove { key: pos[i + 1] });
    assert forall|k: int| 0 <= k < keys.len() implies #[trigger] ops[k] == (SpecOp::Remove {
        key: keys[k],
    }) by {
        assert(pos[k + 1] == keys[k]);
    }
}

/// Only positional arguments, and a flag behind them or none.
proof fn lemma_read_line(words: Seq<Seq<char>>, pos: Seq<Seq<char>>, flag: Seq<char>, a: Accepts)
    requires
        flags_dashed(a),
        all_positional(pos),
    ensures
        sort_from(words + pos, words.len() as int, a, nothing_sorted()) == Ok::<
            Option<SpecSorted>,
            crate::cli::SpecCliError,
        >(Some(SpecSorted { positionals: pos, ..nothing_sorted() })),
        flag == a.first@ && flag.len() > 0 ==> sort_from(
            words + pos + seq![flag],
            words.len() as int,
            a,
            nothing_sorted(),
        ) == Ok::<Option<SpecSorted>, crate::cli::SpecCliError>(
            Some(SpecSorted { positionals: pos, first: true, ..nothing_sorted() }),
        ),
        flag == a.second@ && flag.len() > 0 && flag != a.first@ ==> sort_from(
            words + pos + seq![flag],
            words.len() as int,
            a,
            nothing_sorted(),
        ) == Ok::<Option<SpecSorted>, crate::cli::SpecCliError>(
            Some(SpecSorted { positionals: pos, second: true, ..nothing_sorted() }),
        ),
{
    let start = words.len() as int;
    let n = start + pos.len() as int;
    let bare = words + pos;
    let full = words + pos + seq![flag];
    assert forall|k: int| start <= k < n implies is_positional(#[trigger] bare[k]) by {
        assert(bare[k] == pos[k - start]);
    }
    assert forall|k: int| start <= k < n implies is_positional(#[trigger] full[k]) by {
        assert(full[k] == pos[k - start]);
    }
    lemma_positionals(bare, start, n, a, nothing_sorted());
    lemma_positionals(full, start, n, a, nothing_sorted());
    assert(nothing_sorted().positionals + bare.subrange(start, n) =~= pos);
    assert(nothing_sorted().positionals + full.subrange(start, n) =~= pos);
    assert(full[n] == flag);
    reveal_with_fuel(sort_from, 2);
}

/// `show FILE` shows the file, and its tensors where they are asked for.
pub proof fn law_show_command(file: Seq<char>)
    requires
        is_positional(file),
    ensures
        means(seq!["show"@] + seq![file], SpecCommand::Show { file, tensors: false }),
        means(
            seq!["show"@] + seq![file] + seq!["--tensors"@],
            SpecCommand::Show { file, tensors: true },
        ),
{
    lemma_option_names();
    lemma_command_names();
    let a = Accepts { first: "--tensors", ..reads_only() };
    lemma_read_line(seq!["show"@], seq![file], "--tensors"@, a);
}

/// `get FILE KEY` gets the value of the key, as JSON or raw where that is asked
/// for.
pub proof fn law_get_command(file: Seq<char>, key: Seq<char>)
    requires
        is_positional(file),
        is_positional(key),
    ensures
        means(
            seq!["get"@] + seq![file, key],
            SpecCommand::Get { file, key, json: false, raw: false },
        ),
        means(
            seq!["get"@] + seq![file, key] + seq!["--json"@],
            SpecCommand::Get { file, key, json: true, raw: false },
        ),
        means(
            seq!["get"@] + seq![file, key] + seq!["--raw"@],
            SpecCommand::Get { file, key, json: false, raw: true },
        ),
{
    lemma_option_names();
    lemma_command_names();
    let a = Accepts { first: "--json", second: "--raw", ..reads_only() };
    lemma_read_line(seq!["get"@], seq![file, key], "--json"@, a);
    lemma_read_line(seq!["get"@], seq![file, key], "--raw"@, a);
}

/// `dump FILE` dumps, `verify FILE` verifies, and `template show FILE` prints the
/// template of the file.
pub proof fn law_dump_and_verify_commands(file: Seq<char>)
    requires
        is_positional(file),
    ensures
        means(seq!["dump"@] + seq![file], SpecCommand::Dump { file }),
        means(seq!["verify"@] + seq![file], SpecCommand::Verify { file }),
        means(seq!["template"@, "show"@] + seq![file], SpecCommand::TemplateShow { file }),
{
    lemma_option_names();
    lemma_command_names();
    lemma_read_line(seq!["dump"@], seq![file], ""@, reads_only());
    lemma_read_line(seq!["verify"@], seq![file], ""@, reads_only());
    lemma_read_line(seq!["template"@, "show"@], seq![file], ""@, reads_only());
}

/// `template check FILE` lints the template of a model, strictly where that is
/// asked for.
pub proof fn law_check_command(file: Seq<char>)
    requires
        is_positional(file),
    ensures
        means(
            seq!["template"@, "check"@] + seq![file],
            SpecCommand::CheckModel { file, strict: false },
        ),
        means(
            seq!["template"@, "check"@] + seq![file] + seq!["--strict"@],
            SpecCommand::CheckModel { file, strict: true },
        ),
{
    lemma_option_names();
    lemma_command_names();
    lemma_read_line(
        seq!["template"@, "check"@],
        seq![file],
        "--strict"@,
        crate::cli::check_accepts(),
    );
}

/// A positional argument, then an option with a value, then nothing.
proof fn lemma_template_line(words: Seq<Seq<char>>, file: Seq<char>, value: Seq<char>)
    requires
        is_positional(file),
    ensures
        sort_from(
            words + seq![file] + seq!["--preset"@, value],
            words.len() as int,
            install_accepts(),
            nothing_sorted(),
        ) == Ok::<Option<SpecSorted>, crate::cli::SpecCliError>(
            Some(SpecSorted { positionals: seq![file], preset: Some(value), ..nothing_sorted() }),
        ),
        sort_from(
            words + seq![file] + seq!["--file"@, value],
            words.len() as int,
            install_accepts(),
            nothing_sorted(),
        ) == Ok::<Option<SpecSorted>, crate::cli::SpecCliError>(
            Some(SpecSorted { positionals: seq![file], file: Some(value), ..nothing_sorted() }),
        ),
{
    lemma_option_names();
    let start = words.len() as int;
    let a = install_accepts();
    let p = words + seq![file] + seq!["--preset"@, value];
    let f = words + seq![file] + seq!["--file"@, value];
    assert(p[start] == file && f[start] == file);
    lemma_positionals(p, start, start + 1, a, nothing_sorted());
    lemma_positionals(f, start, start + 1, a, nothing_sorted());
    assert(nothing_sorted().positionals + p.subrange(start, start + 1) =~= seq![file]);
    assert(nothing_sorted().positionals + f.subrange(start, start + 1) =~= seq![file]);
    assert(p[start + 1] == "--preset"@ && p[start + 2] == value);
    assert(f[start + 1] == "--file"@ && f[start + 2] == value);
    reveal_with_fuel(sort_from, 2);
}

/// `template set FILE` installs the text of a preset, or the template in a file.
pub proof fn law_template_set_command(file: Seq<char>, name: Seq<char>)
    requires
        is_positional(file),
    ensures
        preset_source(name) matches Some(text) ==> means(
            seq!["template"@, "set"@] + seq![file] + seq!["--preset"@, name],
            SpecCommand::InstallText { file, text, opts: no_opts() },
        ),
        preset_source(name) is None ==> (command_of(
            seq!["template"@, "set"@] + seq![file] + seq!["--preset"@, name],
        ) matches Err(e) && e.code == 1),
        means(
            seq!["template"@, "set"@] + seq![file] + seq!["--file"@, name],
            SpecCommand::InstallFile { file, template: name, opts: no_opts() },
        ),
{
    lemma_command_names();
    lemma_template_line(seq!["template"@, "set"@], file, name);
}

} // verus!
