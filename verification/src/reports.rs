//! What commands print, and which command lines are refused.

use crate::cli::{
    command_of, decision, issue_line, lines_text, lint_text, nothing_sorted, plural_text,
    preset_lines, presets_text, reads_only, rewrote_text, sort_from, sort_one, verify_text, writes,
    Accepts, SpecCliError, SpecCommand, SpecDecision, SpecSorted, SpecWriteOpts,
};
use crate::commands::{is_positional, lemma_command_names, lemma_option_names, means};
use crate::display::{is_line, lemma_line_within};
use crate::dump::size_text;
use crate::layout::law_plan_ends_at_data_start;
use crate::patch::size_of_text;
use crate::template::{errors_among, preset_list, Severity, SpecIssue};
use crate::text::{dec, int_text, pad_right, starts_at};
use crate::verify::Findings;
use crate::wire::{enc_head, SpecHead};
use crate::writer::{plan, stripped, SpecPlan};
use vstd::prelude::*;
use vstd::string::*;

verus! {

// ---------------------------------------------------------------------------
// Lines
// ---------------------------------------------------------------------------

/// One of a thing is one, and any other number of them are many.
pub proof fn law_plurals(n: nat, word: Seq<char>)
    ensures
        plural_text(1, word) == "1 "@ + word,
        n != 1 ==> plural_text(n, word) == int_text(n as int) + " "@ + word + "s"@,
{
    reveal_strlit("1 ");
    reveal_strlit(" ");
    assert(dec(1) =~= seq!['1']);
    assert(dec(1) + " "@ + word =~= "1 "@ + word);
}

/// A text among texts that are printed stands on a line of its own.
proof fn lemma_listed(texts: Seq<Seq<char>>, i: int)
    requires
        0 <= i < texts.len(),
    ensures
        lines_text(texts).len() > 0,
        lines_text(texts).last() == '\n',
        is_line(lines_text(texts), texts[i] + "\n"@),
    decreases texts.len(),
{
    reveal_strlit("\n");
    let before = lines_text(texts.drop_last());
    let all = lines_text(texts);
    let last = texts.last() + "\n"@;
    assert(all =~= before + last);
    assert("\n"@.len() == 1 && "\n"@[0] == '\n');
    assert(all[all.len() - 1] == "\n"@[0]);
    if i == texts.len() - 1 {
        assert(all.subrange(before.len() as int, all.len() as int) =~= last);
        assert(starts_at(all, before.len() as int, last));
        if texts.len() > 1 {
            lemma_listed(texts.drop_last(), 0);
            assert(all[before.len() - 1] == before.last());
        }
    } else {
        lemma_listed(texts.drop_last(), i);
        let line = texts[i] + "\n"@;
        assert(texts.drop_last()[i] == texts[i]);
        let p = choose|p: int|
            #[trigger] starts_at(before, p, line) && (p == 0 || before[p - 1] == '\n');
        assert(all.subrange(p, p + line.len()) =~= before.subrange(p, p + line.len()));
        assert(starts_at(all, p, line));
        if p > 0 {
            assert(all[p - 1] == before[p - 1]);
        }
    }
}

// ---------------------------------------------------------------------------
// Findings about templates and files
// ---------------------------------------------------------------------------

/// What a finding of the linter is printed as: its severity, its line and column
/// where it has a place, and its message.
pub open spec fn printed_issue(issue: SpecIssue) -> Seq<char> {
    let severity = match issue.severity {
        Severity::Error => "  error"@,
        Severity::Warning => "  warning"@,
    };
    match issue.pos {
        Some((line, column)) => severity + " at "@ + int_text(line as int) + ":"@ + int_text(
            column as int,
        ) + ": "@ + issue.message + "\n"@,
        None => severity + ": "@ + issue.message + "\n"@,
    }
}

/// A finding, printed.
proof fn lemma_printed_issue(issue: SpecIssue)
    ensures
        issue_line(issue) + "\n"@ == printed_issue(issue),
{
    reveal_strlit("  ");
    reveal_strlit("error");
    reveal_strlit("warning");
    reveal_strlit("  error");
    reveal_strlit("  warning");
    assert("  "@ + "error"@ =~= "  error"@);
    assert("  "@ + "warning"@ =~= "  warning"@);
    match issue.pos {
        Some((line, column)) => {
            assert(issue_line(issue) + "\n"@ =~= printed_issue(issue));
        },
        None => {
            assert(issue_line(issue) + "\n"@ =~= printed_issue(issue));
        },
    }
}

/// The first line of what is printed about a template: how many errors and warnings
/// there are, or that there are none.
pub proof fn law_summary_of_a_template(source: Seq<char>, issues: Seq<SpecIssue>)
    ensures
        ({
            let errors = errors_among(issues);
            let warnings = (issues.len() - errors) as nat;
            let first = source + if issues.len() == 0 {
                ": template OK\n"@
            } else if errors == 0 {
                ": template OK ("@ + plural_text(warnings, "warning"@) + ")\n"@
            } else {
                ": "@ + plural_text(errors, "error"@) + ", "@ + plural_text(warnings, "warning"@)
                    + "\n"@
            };
            &&& starts_at(lint_text(source, issues), 0, first)
            &&& issues.len() == 0 ==> lint_text(source, issues) == first
        }),
{
    crate::template::lemma_errors_among(issues);
    let errors = errors_among(issues);
    let warnings = (issues.len() - errors) as nat;
    let all = lint_text(source, issues);
    let first = source + if issues.len() == 0 {
        ": template OK\n"@
    } else if errors == 0 {
        ": template OK ("@ + plural_text(warnings, "warning"@) + ")\n"@
    } else {
        ": "@ + plural_text(errors, "error"@) + ", "@ + plural_text(warnings, "warning"@) + "\n"@
    };
    let body = lines_text(Seq::new(issues.len(), |i: int| issue_line(issues[i])));
    assert(all == first + body);
    assert(all.subrange(0, first.len() as int) =~= first);
    if issues.len() == 0 {
        assert(all =~= first);
    }
}

/// Every finding of the linter is printed, on a line of its own.
pub proof fn law_every_finding_is_printed(source: Seq<char>, issues: Seq<SpecIssue>, i: int)
    requires
        0 <= i < issues.len(),
    ensures
        is_line(lint_text(source, issues), printed_issue(issues[i])),
{
    reveal_strlit("\n");
    reveal_strlit(")\n");
    reveal_strlit(": template OK\n");
    crate::template::lemma_errors_among(issues);
    let errors = errors_among(issues);
    let warnings = (issues.len() - errors) as nat;
    let texts = Seq::new(issues.len(), |i: int| issue_line(issues[i]));
    let body = lines_text(texts);
    let first = source + if errors == 0 && warnings == 0 {
        ": template OK\n"@
    } else if errors == 0 {
        ": template OK ("@ + plural_text(warnings, "warning"@) + ")\n"@
    } else {
        ": "@ + plural_text(errors, "error"@) + ", "@ + plural_text(warnings, "warning"@) + "\n"@
    };
    assert("\n"@.len() == 1 && "\n"@[0] == '\n');
    assert(")\n"@.len() == 2 && ")\n"@[1] == '\n');
    assert(first.last() == '\n');
    lemma_listed(texts, i);
    lemma_printed_issue(issues[i]);
    lemma_line_within(first, body, Seq::empty(), printed_issue(issues[i]));
    assert(first + body + Seq::<char>::empty() =~= lint_text(source, issues));
}

/// The first line of what `verify` prints: that the file is all right, with how many
/// warnings where there are any, or how many errors and warnings there are.
pub proof fn law_summary_of_a_file(file: Seq<char>, h: SpecHead, file_len: nat, f: Findings)
    ensures
        starts_at(
            verify_text(file, h, file_len, f),
            0,
            file + if f.errors.len() > 0 {
                ": "@ + plural_text(f.errors.len(), "error"@) + ", "@ + plural_text(
                    f.warnings.len(),
                    "warning"@,
                ) + "\n"@
            } else if f.warnings.len() > 0 {
                ": OK ("@ + plural_text(f.warnings.len(), "warning"@) + ")\n"@
            } else {
                ": OK\n"@
            },
        ),
{
    let first = file + if f.errors.len() > 0 {
        ": "@ + plural_text(f.errors.len(), "error"@) + ", "@ + plural_text(
            f.warnings.len(),
            "warning"@,
        ) + "\n"@
    } else if f.warnings.len() > 0 {
        ": OK ("@ + plural_text(f.warnings.len(), "warning"@) + ")\n"@
    } else {
        ": OK\n"@
    };
    let all = verify_text(file, h, file_len, f);
    assert(all.subrange(0, first.len() as int) =~= first);
}

/// Everything that is wrong with a file, or odd, is printed on a line of its own.
pub proof fn law_every_complaint_is_printed(
    file: Seq<char>,
    h: SpecHead,
    file_len: nat,
    f: Findings,
    i: int,
)
    ensures
        0 <= i < f.errors.len() ==> is_line(
            verify_text(file, h, file_len, f),
            "  error: "@ + f.errors[i] + "\n"@,
        ),
        0 <= i < f.warnings.len() ==> is_line(
            verify_text(file, h, file_len, f),
            "  warning: "@ + f.warnings[i] + "\n"@,
        ),
{
    reveal_strlit("\n");
    assert("\n"@.len() == 1 && "\n"@[0] == '\n');
    let errors = Seq::new(f.errors.len(), |i: int| "  error: "@ + f.errors[i]);
    let warnings = Seq::new(f.warnings.len(), |i: int| "  warning: "@ + f.warnings[i]);
    let wrong = lines_text(errors);
    let odd = lines_text(warnings);
    let all = verify_text(file, h, file_len, f);
    let top = all.take(all.len() - wrong.len() - odd.len());
    lemma_top_of_the_report(file, h, file_len, f);
    if 0 <= i < f.errors.len() {
        lemma_listed(errors, i);
        lemma_line_within(top, wrong, odd, "  error: "@ + f.errors[i] + "\n"@);
    }
    if 0 <= i < f.warnings.len() {
        lemma_listed(warnings, i);
        if f.errors.len() > 0 {
            lemma_listed(errors, 0);
        }
        let before = top + wrong;
        assert(before.last() == '\n') by {
            if f.errors.len() > 0 {
                assert(before[before.len() - 1] == wrong[wrong.len() - 1]);
            } else {
                assert(before =~= top);
            }
        }
        lemma_line_within(before, odd, Seq::empty(), "  warning: "@ + f.warnings[i] + "\n"@);
        assert(before + odd + Seq::<char>::empty() =~= all);
    }
}

/// What `verify` prints is some lines, the errors and the warnings.
proof fn lemma_top_of_the_report(file: Seq<char>, h: SpecHead, file_len: nat, f: Findings)
    ensures
        ({
            let wrong = lines_text(Seq::new(f.errors.len(), |i: int| "  error: "@ + f.errors[i]));
            let odd = lines_text(
                Seq::new(f.warnings.len(), |i: int| "  warning: "@ + f.warnings[i]),
            );
            let all = verify_text(file, h, file_len, f);
            let top = all.take(all.len() - wrong.len() - odd.len());
            &&& wrong.len() + odd.len() < all.len()
            &&& all == top + wrong + odd
            &&& top.last() == '\n'
        }),
{
    reveal_strlit("\n");
    assert("\n"@.len() == 1 && "\n"@[0] == '\n');
    let wrong = lines_text(Seq::new(f.errors.len(), |i: int| "  error: "@ + f.errors[i]));
    let odd = lines_text(Seq::new(f.warnings.len(), |i: int| "  warning: "@ + f.warnings[i]));
    let all = verify_text(file, h, file_len, f);
    let n = all.len() - wrong.len() - odd.len();
    let top = all.take(n);
    assert(n > 0);
    assert(all[n - 1] == "\n"@[0]);
    assert(all =~= top + wrong + odd);
}

// ---------------------------------------------------------------------------
// Command lines
// ---------------------------------------------------------------------------

/// A command line that is refused as mistaken.
pub open spec fn refused(args: Seq<Seq<char>>) -> bool {
    command_of(args) matches Err(e) && e.code == 2
}

/// The commands that take a file.
pub open spec fn takes_a_file(name: Seq<char>) -> bool {
    ||| name == "show"@
    ||| name == "get"@
    ||| name == "set"@
    ||| name == "rm"@
    ||| name == "rename"@
    ||| name == "dump"@
    ||| name == "apply"@
    ||| name == "verify"@
    ||| name == "sample"@
}

/// Without arguments, or where it is asked for, the help is printed; the version
/// likewise.
pub proof fn law_help_and_version(args: Seq<Seq<char>>)
    ensures
        args.len() == 0 ==> (command_of(args) matches Ok(c) && c is Print),
        args.len() > 0 && (args[0] == "-h"@ || args[0] == "--help"@ || args[0] == "help"@) ==> (
        command_of(args) matches Ok(c) && c is Print),
        args.len() > 0 && (args[0] == "-V"@ || args[0] == "--version"@) ==> means(
            args,
            SpecCommand::Print { text: "gguf-chisel "@ + "0.1.0"@ },
        ),
        args.len() > 1 && takes_a_file(args[0]) && (args[1] == "-h"@ || args[1] == "--help"@) ==> (
        command_of(args) matches Ok(c) && c is Print),
{
    lemma_command_names();
    lemma_option_names();
    reveal_strlit("-h");
    reveal_strlit("--help");
    reveal_strlit("help");
    reveal_strlit("-V");
    reveal_strlit("--version");
    if args.len() > 1 && takes_a_file(args[0]) && (args[1] == "-h"@ || args[1] == "--help"@) {
        lemma_asks_for_help(args, reads_only());
        lemma_asks_for_help(args, writes());
        lemma_asks_for_help(args, (Accepts { first: "--tensors", ..reads_only() }));
        lemma_asks_for_help(args, (Accepts { first: "--json", second: "--raw", ..reads_only() }));
    }
}

/// Help that is asked for.
proof fn lemma_asks_for_help(args: Seq<Seq<char>>, a: Accepts)
    requires
        args.len() > 1,
        args[1] == "-h"@ || args[1] == "--help"@,
        !a.file && !a.preset,
        a.first@ != "-h"@ && a.first@ != "--help"@ && a.second@ != "-h"@ && a.second@ != "--help"@,
    ensures
        sort_from(args, 1, a, nothing_sorted()) == Ok::<Option<SpecSorted>, SpecCliError>(None),
{
    assert(sort_one(args, 1, a, nothing_sorted()) == Ok::<
        Option<(int, SpecSorted)>,
        SpecCliError,
    >(None));
}

/// A command that is none is refused.
pub proof fn law_unknown_commands_are_refused(args: Seq<Seq<char>>)
    requires
        args.len() > 0,
        !takes_a_file(args[0]),
        args[0] != "template"@,
        args[0] != "-h"@ && args[0] != "--help"@ && args[0] != "help"@,
        args[0] != "-V"@ && args[0] != "--version"@,
    ensures
        refused(args),
{
}

/// A command that takes a file is refused without one.
pub proof fn law_missing_files_are_refused(name: Seq<char>)
    requires
        takes_a_file(name),
    ensures
        refused(seq![name]),
{
    lemma_command_names();
    lemma_option_names();
    let args = seq![name];
    assert(args[0] == name);
    assert(sort_from(args, 1, reads_only(), nothing_sorted()) == Ok::<
        Option<SpecSorted>,
        SpecCliError,
    >(Some(nothing_sorted())));
}

/// A name of an option that some command knows.
pub open spec fn known_option(arg: Seq<char>) -> bool {
    ||| arg == "-h"@
    ||| arg == "--help"@
    ||| arg == "--tensors"@
    ||| arg == "--json"@
    ||| arg == "--raw"@
    ||| arg == "--dry-run"@
    ||| arg == "--rewrite"@
    ||| arg == "-o"@
    ||| arg == "--output"@
    ||| arg == "--reserve"@
}

/// The commands that change a file.
pub open spec fn changes_a_file(name: Seq<char>) -> bool {
    ||| name == "set"@
    ||| name == "rm"@
    ||| name == "rename"@
    ||| name == "apply"@
}

/// An option that a command does not know is refused: one that none knows, and the
/// write options where nothing is written.
pub proof fn law_unknown_options_are_refused(args: Seq<Seq<char>>)
    requires
        args.len() > 1,
        takes_a_file(args[0]),
        args[1].len() > 1,
        args[1][0] == '-',
        !known_option(args[1]) || (!changes_a_file(args[0]) && args[0] != "sample"@ && (args[1]
            == "--dry-run"@ || args[1] == "--rewrite"@ || args[1] == "-o"@ || args[1]
            == "--output"@ || args[1] == "--reserve"@)),
    ensures
        refused(args),
{
    lemma_command_names();
    lemma_option_names();
    reveal_strlit("--tensors");
    reveal_strlit("--raw");
    assert("--tensors"@[2] == 't' && "--raw"@[2] == 'r');
    lemma_unknown_option(args, reads_only());
    lemma_unknown_option(args, writes());
    lemma_unknown_option(args, (Accepts { first: "--tensors", ..reads_only() }));
    lemma_unknown_option(args, (Accepts { first: "--json", second: "--raw", ..reads_only() }));
}

/// An option that is not among those accepted.
proof fn lemma_unknown_option(args: Seq<Seq<char>>, a: Accepts)
    ensures
        args.len() > 1 && args[1].len() > 1 && args[1][0] == '-' && args[1] != "-h"@ && args[1]
            != "--help"@ && args[1] != a.first@ && args[1] != a.second@ && !a.file && !a.preset && !(
        a.write && (args[1] == "--dry-run"@ || args[1] == "--rewrite"@ || args[1] == "-o"@
            || args[1] == "--output"@ || args[1] == "--reserve"@)) ==> (sort_from(
            args,
            1,
            a,
            nothing_sorted(),
        ) matches Err(e) && e.code == 2),
{
}

/// `sample FILE` writes a sample, with the headroom that is asked for.
pub proof fn law_sample_command(file: Seq<char>, size: Seq<char>)
    requires
        is_positional(file),
    ensures
        means(seq!["sample"@, file], SpecCommand::Sample { file, reserve: 0 }),
        size_of_text(size) matches Ok(n) ==> means(
            seq!["sample"@, file, "--reserve"@, size],
            SpecCommand::Sample { file, reserve: n },
        ),
        size_of_text(size) is Err ==> refused(seq!["sample"@, file, "--reserve"@, size]),
{
    lemma_command_names();
    lemma_option_names();
    let short = seq!["sample"@, file];
    let long = seq!["sample"@, file, "--reserve"@, size];
    let a = writes();
    assert(short[0] == "sample"@ && short[1] == file);
    assert(long[0] == "sample"@ && long[1] == file && long[2] == "--reserve"@ && long[3] == size);
    reveal_with_fuel(sort_from, 3);
    let one = SpecSorted {
        positionals: nothing_sorted().positionals.push(file),
        ..nothing_sorted()
    };
    assert(sort_one(short, 1, a, nothing_sorted()) == Ok::<Option<(int, SpecSorted)>, SpecCliError>(
        Some((1, one)),
    ));
    assert(sort_one(long, 1, a, nothing_sorted()) == Ok::<Option<(int, SpecSorted)>, SpecCliError>(
        Some((1, one)),
    ));
    assert(sort_from(short, 1, a, nothing_sorted()) == Ok::<Option<SpecSorted>, SpecCliError>(
        Some(one),
    ));
}

// ---------------------------------------------------------------------------
// Writing
// ---------------------------------------------------------------------------

/// What a dry run says: how long the head is and how much padding follows it where
/// it fits, and else how many bytes it needs and how many there are; the same
/// numbers stand in the refusal of a head that does not fit.
pub proof fn law_what_is_said_of_fitting(path: Seq<char>, h: SpecHead, opts: SpecWriteOpts)
    requires
        h.data_start >= 0,
    ensures
        ({
            let p = plan(h.version, h.kvs, h.tensors, h.data_start as nat, h.alignment as nat);
            let bare = enc_head(h.version, stripped(h.kvs), h.tensors).len() as int;
            match p {
                SpecPlan::InPlace { head, .. } => opts.dry_run ==> decision(path, h, opts) == Ok::<
                    SpecDecision,
                    SpecCliError,
                >(
                    SpecDecision::Report {
                        text: "dry-run: fits in place ("@ + int_text(head.len() as int)
                            + " head bytes + "@ + int_text(h.data_start - head.len())
                            + " bytes of alignment padding; tensor data untouched)\n"@,
                        code: 0,
                    },
                ),
                SpecPlan::NeedsRewrite { .. } => {
                    &&& opts.dry_run ==> decision(path, h, opts) == Ok::<
                        SpecDecision,
                        SpecCliError,
                    >(
                        SpecDecision::Report {
                            text: "dry-run: needs a rewrite (head needs "@ + int_text(bare)
                                + " bytes, "@ + int_text(h.data_start)
                                + " available before tensor data)\n"@,
                            code: 3,
                        },
                    )
                    &&& !opts.dry_run && !opts.rewrite && opts.output is None ==> (decision(
                        path,
                        h,
                        opts,
                    ) matches Err(e) && starts_at(
                        e.message,
                        0,
                        "metadata head grew beyond the available space (need "@ + int_text(bare)
                            + " bytes, have "@ + int_text(h.data_start),
                    ))
                },
            }
        }),
{
    let p = plan(h.version, h.kvs, h.tensors, h.data_start as nat, h.alignment as nat);
    law_plan_ends_at_data_start(
        h.version,
        h.kvs,
        h.tensors,
        h.data_start as nat,
        h.alignment as nat,
    );
    let bare = enc_head(h.version, stripped(h.kvs), h.tensors).len();
    let start = "metadata head grew beyond the available space (need "@ + dec(bare)
        + " bytes, have "@ + dec(h.data_start as nat);
    if let Err(e) = decision(path, h, opts) {
        assert(e.message.subrange(0, start.len() as int) =~= start);
    }
}

/// What is said after writing: how many bytes were written in place, which are all
/// those before the tensor data, and that a reserve was of no use then; or how long a
/// new head is, how much was reserved in it and how much data was copied.
pub proof fn law_what_is_said_after_writing(
    path: Seq<char>,
    h: SpecHead,
    opts: SpecWriteOpts,
    head_len: u64,
    copied: u64,
)
    requires
        h.data_start >= 0,
    ensures
        decision(path, h, opts) matches Ok(SpecDecision::InPlace { region, text }) ==> {
            &&& region.len() == h.data_start
            &&& text == (if opts.reserve > 0 {
                "note: --reserve only applies to rewrites; existing headroom kept\n"@
            } else {
                Seq::empty()
            }) + ("patched "@ + path + " in place: "@ + int_text(h.data_start)
                + " head bytes written, tensor data untouched\n"@)
        },
        rewrote_text(path, head_len, 0, copied) == "rewrote "@ + path + ": "@ + int_text(
            head_len as int,
        ) + " head bytes"@ + ", copied "@ + size_text(copied as nat) + " of tensor data\n"@,
        opts.reserve > 0 ==> rewrote_text(path, head_len, opts.reserve, copied) == "rewrote "@ + path
            + ": "@ + int_text(head_len as int) + " head bytes"@ + (" (+"@ + int_text(
            opts.reserve as int,
        ) + " reserved)"@) + ", copied "@ + size_text(copied as nat) + " of tensor data\n"@,
{
    law_plan_ends_at_data_start(
        h.version,
        h.kvs,
        h.tensors,
        h.data_start as nat,
        h.alignment as nat,
    );
    assert("rewrote "@ + path + ": "@ + dec(head_len as nat) + " head bytes"@ + Seq::empty()
        =~= "rewrote "@ + path + ": "@ + dec(head_len as nat) + " head bytes"@);
}

// ---------------------------------------------------------------------------
// Presets
// ---------------------------------------------------------------------------

/// The presets, each on a line with its name and what it is.
pub proof fn law_every_preset_is_listed(i: int)
    requires
        0 <= i < preset_list().len(),
    ensures
        preset_list().len() == 6,
        means(seq!["template"@, "presets"@], SpecCommand::Print { text: presets_text() }),
        is_line(
            presets_text() + "\n"@,
            pad_right(preset_list()[i].0, 10) + " "@ + preset_list()[i].1 + "\n"@,
        ),
{
    lemma_command_names();
    let args = seq!["template"@, "presets"@];
    assert(args[0] == "template"@ && args[1] == "presets"@);
    let list = preset_list();
    lemma_preset_lines(list);
    let texts = Seq::new(list.len(), |i: int| pad_right(list[i].0, 10) + " "@ + list[i].1);
    lemma_listed(texts, i);
}

/// Presets are printed line by line.
proof fn lemma_preset_lines(list: Seq<(Seq<char>, Seq<char>)>)
    requires
        list.len() > 0,
    ensures
        preset_lines(list) + "\n"@ == lines_text(
            Seq::new(list.len(), |i: int| pad_right(list[i].0, 10) + " "@ + list[i].1),
        ),
    decreases list.len(),
{
    let texts = Seq::new(list.len(), |i: int| pad_right(list[i].0, 10) + " "@ + list[i].1);
    let most = list.drop_last();
    let fewer = Seq::new(most.len(), |i: int| pad_right(most[i].0, 10) + " "@ + most[i].1);
    assert(texts.drop_last() =~= fewer);
    assert(texts.last() == pad_right(list.last().0, 10) + " "@ + list.last().1);
    if list.len() == 1 {
        assert(lines_text(fewer) =~= Seq::<char>::empty());
        assert(lines_text(texts) =~= preset_lines(list) + "\n"@);
    } else {
        lemma_preset_lines(most);
        assert(lines_text(texts) =~= preset_lines(list) + "\n"@);
    }
}

} // verus!
