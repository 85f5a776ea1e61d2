//! Every command from its arguments to what it prints and writes, over files
//! held in memory: in-place edits leave every tensor byte and the file length
//! untouched, and exit codes are as documented.

use gguf_chisel::cli::{
    check_model, commit, edit, failure, get_output, install_template, lint_report, parse_command,
    patch_ops, plural, rewrote, sample_report, template_source, verify_report, CliError, Command,
    Decision, WriteOpts, VERSION,
};
use gguf_chisel::dump::{dump_json, render_show};
use gguf_chisel::json;
use gguf_chisel::patch::EditOp;
use gguf_chisel::reader::{parse_head, Gguf};
use gguf_chisel::template::lint;
use gguf_chisel::verify::verify;
use gguf_chisel::writer::{rewrite_prefix, sample_bytes};

/// Files by name.
struct Disk {
    files: Vec<(String, Vec<u8>)>,
}

/// What a command left: its exit code, and what it printed.
struct Output {
    code: i32,
    out: String,
    err: String,
}

impl Disk {
    fn new() -> Disk {
        Disk { files: Vec::new() }
    }

    /// A disk with a sample model on it.
    fn with_sample() -> Disk {
        let mut disk = Disk::new();
        let made = disk.run(&["sample", "model.gguf"]);
        assert_eq!(made.code, 0, "sample failed: {}", made.err);
        disk
    }

    fn read(&self, name: &str) -> Option<Vec<u8>> {
        self.files
            .iter()
            .find(|(n, _)| n == name)
            .map(|(_, b)| b.clone())
    }

    fn write(&mut self, name: &str, bytes: &[u8]) {
        match self.files.iter_mut().find(|(n, _)| n == name) {
            Some((_, b)) => *b = bytes.to_vec(),
            None => self.files.push((name.to_string(), bytes.to_vec())),
        }
    }

    fn text(&self, name: &str) -> Result<String, CliError> {
        match self.read(name) {
            Some(b) => Ok(String::from_utf8(b).unwrap()),
            None => Err(failure(format!("cannot read {name}"))),
        }
    }

    fn load(&self, name: &str) -> Result<Gguf, CliError> {
        match self.read(name) {
            Some(b) => parse_head(&b, b.len() as u64).map_err(|e| failure(e.to_text())),
            None => Err(failure(format!("cannot open {name}"))),
        }
    }

    /// The tensor-data section of a file, and where it begins.
    fn data_region(&self, name: &str) -> (u64, Vec<u8>) {
        let bytes = self.read(name).unwrap();
        let g = parse_head(&bytes, bytes.len() as u64).unwrap();
        (g.data_start, bytes[g.data_start as usize..].to_vec())
    }

    fn run_edit(
        &mut self,
        file: &str,
        ops: &[EditOp],
        opts: &WriteOpts,
        out: &mut String,
    ) -> Result<i32, CliError> {
        let mut g = self.load(file)?;
        out.push_str(&edit(&mut g, ops)?);
        match commit(file, &g, opts)? {
            Decision::Report { text, code } => {
                out.push_str(&text);
                Ok(code)
            }
            Decision::InPlace { region, text } => {
                let mut bytes = self.read(file).unwrap();
                bytes[..region.len()].copy_from_slice(&region);
                self.write(file, &bytes);
                out.push_str(&text);
                Ok(0)
            }
            Decision::Rewrite => {
                let (mut bytes, head_len) = rewrite_prefix(&g, opts.reserve).unwrap();
                let source = self.read(file).unwrap();
                let data = &source[g.data_start as usize..];
                bytes.extend_from_slice(data);
                let target = match &opts.output {
                    Some(o) => o.clone(),
                    None => file.to_string(),
                };
                out.push_str(&rewrote(&target, head_len, opts.reserve, data.len() as u64));
                self.write(&target, &bytes);
                Ok(0)
            }
        }
    }

    fn perform(
        &mut self,
        command: Command,
        stdin: &str,
        out: &mut String,
    ) -> Result<i32, CliError> {
        match command {
            Command::Print { text } => {
                out.push_str(&text);
                out.push('\n');
                Ok(0)
            }
            Command::Show { file, tensors } => {
                out.push_str(&render_show(&self.load(&file)?, &file, tensors));
                Ok(0)
            }
            Command::Get {
                file,
                key,
                json,
                raw,
            } => {
                out.push_str(&get_output(&self.load(&file)?, &file, &key, json, raw)?);
                Ok(0)
            }
            Command::Edit { file, ops, opts } => self.run_edit(&file, &ops, &opts, out),
            Command::Dump { file } => {
                out.push_str(&dump_json(&self.load(&file)?));
                out.push('\n');
                Ok(0)
            }
            Command::Apply { file, patch, opts } => {
                let text = if patch == "-" {
                    stdin.to_string()
                } else {
                    self.text(&patch)?
                };
                let ops = patch_ops(&patch, &text)?;
                self.run_edit(&file, &ops, &opts, out)
            }
            Command::TemplateShow { file } => {
                out.push_str(&template_source(&self.load(&file)?, &file)?);
                out.push('\n');
                Ok(0)
            }
            Command::CheckModel { file, strict } => {
                let (text, code) = check_model(&self.load(&file)?, &file, strict)?;
                out.push_str(&text);
                Ok(code)
            }
            Command::CheckFile { template, strict } => {
                let text = self.text(&template)?;
                let (report, code) = lint_report(&template, &lint(&text), strict);
                out.push_str(&report);
                Ok(code)
            }
            Command::InstallText { file, text, opts } => {
                self.install(&file, text, &opts, out)
            }
            Command::InstallFile {
                file,
                template,
                opts,
            } => {
                let text = self.text(&template)?;
                self.install(&file, text, &opts, out)
            }
            Command::Verify { file } => {
                let g = self.load(&file)?;
                let (text, code) = verify_report(&file, &g, &verify(&g));
                out.push_str(&text);
                Ok(code)
            }
            Command::Sample { file, reserve } => {
                let bytes = sample_bytes(reserve);
                self.write(&file, &bytes);
                out.push_str(&sample_report(&file, bytes.len()));
                Ok(0)
            }
        }
    }

    fn install(
        &mut self,
        file: &str,
        text: String,
        opts: &WriteOpts,
        out: &mut String,
    ) -> Result<i32, CliError> {
        match install_template(text) {
            Ok(op) => self.run_edit(file, &[op], opts, out),
            Err((report, e)) => {
                out.push_str(&report);
                Err(e)
            }
        }
    }

    fn run_with(&mut self, args: &[&str], stdin: &str) -> Output {
        let args: Vec<String> = args.iter().map(|a| a.to_string()).collect();
        let mut out = String::new();
        let result = match parse_command(&args) {
            Ok(command) => self.perform(command, stdin, &mut out),
            Err(e) => Err(e),
        };
        match result {
            Ok(code) => Output {
                code,
                out,
                err: String::new(),
            },
            Err(e) => Output {
                code: e.code,
                out,
                err: e.message,
            },
        }
    }

    fn run(&mut self, args: &[&str]) -> Output {
        self.run_with(args, "")
    }
}

#[test]
fn version_and_help_print_and_exit_zero() {
    let mut disk = Disk::new();
    let version = disk.run(&["--version"]);
    assert_eq!(version.code, 0);
    assert_eq!(version.out.trim(), format!("gguf-chisel {VERSION}"));
    assert_eq!(VERSION, "0.1.0");

    let help = disk.run(&["--help"]);
    assert_eq!(help.code, 0);
    let text = help.out;
    assert!(text.contains("COMMANDS:"));
    assert!(text.contains("OPTIONS:"));
    for cmd in [
        "show", "get", "set", "rm", "rename", "dump", "apply", "template", "verify", "sample",
    ] {
        assert!(text.contains(cmd), "help must mention '{cmd}'");
    }
    assert_eq!(disk.run(&[]).out, text);
    assert_eq!(disk.run(&["help"]).out, text);
    assert_eq!(disk.run(&["-V"]).code, 0);
}

#[test]
fn unknown_commands_and_options_are_usage_errors_with_exit_2() {
    let mut disk = Disk::with_sample();
    let cmd = disk.run(&["frobnicate"]);
    assert_eq!(cmd.code, 2);
    assert!(cmd.err.contains("unknown command"));

    let opt = disk.run(&["show", "model.gguf", "--frobnicate"]);
    assert_eq!(opt.code, 2);
    assert!(opt.err.contains("unknown option"));

    // Write flags that a command cannot honor are rejected, not ignored:
    // sample generates a fresh file, so only --reserve makes sense.
    let noop = disk.run(&["sample", "x.gguf", "--dry-run"]);
    assert_eq!(noop.code, 2);
    assert!(noop.err.contains("--reserve"), "{}", noop.err);
    assert!(
        disk.read("x.gguf").is_none(),
        "rejected sample writes nothing"
    );
}

#[test]
fn sample_then_show_reports_layout_and_keys() {
    let mut disk = Disk::with_sample();
    let out = disk.run(&["show", "model.gguf", "--tensors"]);
    assert_eq!(out.code, 0);
    let text = out.out;
    assert!(text.contains("gguf:       v3 little-endian"), "{text}");
    assert!(text.contains("metadata:   9 keys"), "{text}");
    assert!(text.contains("sample.context_length"), "{text}");
    assert!(text.contains("token_embd.weight"), "{text}");
    assert!(text.contains("headroom"), "{text}");
    let short = disk.run(&["show", "model.gguf"]);
    assert!(!short.out.contains("token_embd.weight"), "{}", short.out);
}

#[test]
fn get_prints_bare_values_json_and_raw_bytes() {
    let mut disk = Disk::with_sample();
    let m = "model.gguf";

    let bare = disk.run(&["get", m, "sample.context_length"]);
    assert_eq!(bare.out.trim(), "4096");

    let json = disk.run(&["get", m, "sample.context_length", "--json"]);
    let text = json.out;
    assert!(text.contains("\"type\":\"u32\""), "{text}");
    assert!(text.contains("\"value\":4096"), "{text}");
    assert_eq!(
        text,
        "{\"key\":\"sample.context_length\",\"type\":\"u32\",\"value\":4096}\n"
    );

    // --raw emits exact string bytes with no trailing newline, so templates
    // can be piped to a file and re-installed byte-identically.
    let raw = disk.run(&["get", m, "tokenizer.chat_template", "--raw"]);
    assert!(!raw.out.ends_with('\n'));
    assert!(raw.out.contains("<|im_start|>"));
    let cooked = disk.run(&["get", m, "tokenizer.chat_template"]);
    assert_eq!(cooked.out, format!("{}\n", raw.out));

    let missing = disk.run(&["get", m, "no.such.key"]);
    assert_eq!(missing.code, 1);
    assert!(missing.err.contains("no such key"), "{}", missing.err);
}

#[test]
fn set_patches_in_place_without_touching_tensor_bytes() {
    let mut disk = Disk::with_sample();
    let m = "model.gguf";
    let before_len = disk.read(m).unwrap().len();
    let (data_start_before, data_before) = disk.data_region(m);

    let out = disk.run(&[
        "set",
        m,
        "sample.context_length=32768",
        "general.name=Renamed Model",
    ]);
    assert_eq!(out.code, 0, "{}", out.err);
    let text = out.out;
    assert!(
        text.contains("set sample.context_length: u32 4096 -> u32 32768"),
        "{text}"
    );
    assert!(text.contains("patched"), "{text}");
    assert!(text.contains("tensor data untouched"), "{text}");

    assert_eq!(
        disk.read(m).unwrap().len(),
        before_len,
        "file size unchanged"
    );
    let (data_start_after, data_after) = disk.data_region(m);
    assert_eq!(data_start_before, data_start_after, "data offset unchanged");
    assert_eq!(data_before, data_after, "tensor bytes bit-identical");

    let get = disk.run(&["get", m, "sample.context_length"]);
    assert_eq!(get.out.trim(), "32768");
}

#[test]
fn growth_without_rewrite_fails_and_with_rewrite_succeeds() {
    let mut disk = Disk::with_sample();
    let m = "model.gguf";
    let big = "x".repeat(2000);
    let arg = format!("general.description={big}");

    let refused = disk.run(&["set", m, &arg]);
    assert_eq!(refused.code, 1);
    assert!(refused.err.contains("--rewrite"), "{}", refused.err);

    let (_, data_before) = disk.data_region(m);
    let ok = disk.run(&["set", m, &arg, "--rewrite", "--reserve", "1K"]);
    assert_eq!(ok.code, 0, "{}", ok.err);
    assert!(ok.out.contains("rewrote"), "{}", ok.out);
    assert!(ok.out.contains("(+1024 reserved)"), "{}", ok.out);
    assert!(
        ok.out.contains("copied 160 bytes of tensor data"),
        "{}",
        ok.out
    );

    let (_, data_after) = disk.data_region(m);
    assert_eq!(
        data_before, data_after,
        "rewrite streams tensor bytes verbatim"
    );

    // The reserved headroom now absorbs further growth in place.
    let more = disk.run(&["set", m, "general.license=apache-2.0"]);
    assert_eq!(more.code, 0, "{}", more.err);
    assert!(more.out.contains("in place"), "{}", more.out);

    let verify = disk.run(&["verify", m]);
    assert_eq!(verify.code, 0, "{}", verify.out);
}

#[test]
fn dry_run_reports_fit_with_exit_0_and_rewrite_need_with_exit_3() {
    let mut disk = Disk::with_sample();
    let m = "model.gguf";
    let original = disk.read(m).unwrap();

    let fits = disk.run(&["set", m, "sample.context_length=8192", "--dry-run"]);
    assert_eq!(fits.code, 0);
    assert!(fits.out.contains("fits in place"), "{}", fits.out);

    let big = format!("general.notes={}", "y".repeat(4000));
    let needs = disk.run(&["set", m, &big, "--dry-run"]);
    assert_eq!(needs.code, 3);
    assert!(needs.out.contains("needs a rewrite"), "{}", needs.out);

    assert_eq!(disk.read(m).unwrap(), original, "dry-run never writes");
}

#[test]
fn rm_and_rename_edit_keys_in_place() {
    let mut disk = Disk::with_sample();
    let m = "model.gguf";
    let (_, data_before) = disk.data_region(m);

    let rm = disk.run(&["rm", m, "sample.block_count"]);
    assert_eq!(rm.code, 0, "{}", rm.err);
    assert!(rm.out.contains("rm  sample.block_count"), "{}", rm.out);

    let rename = disk.run(&["rename", m, "general.file_type", "general.quant_type"]);
    assert_eq!(rename.code, 0, "{}", rename.err);

    let show = disk.run(&["show", m]).out;
    assert!(!show.contains("sample.block_count"), "{show}");
    assert!(show.contains("general.quant_type"), "{show}");

    let (_, data_after) = disk.data_region(m);
    assert_eq!(data_before, data_after);

    let missing = disk.run(&["rm", m, "not.a.key"]);
    assert_eq!(missing.code, 1);
    assert!(missing.err.contains("no such key"));
}

#[test]
fn output_flag_writes_a_new_file_and_leaves_the_source_alone() {
    let mut disk = Disk::with_sample();
    let m = "model.gguf";
    let original = disk.read(m).unwrap();

    let out = disk.run(&[
        "set",
        m,
        "sample.context_length=16384",
        "-o",
        "patched.gguf",
        "--reserve",
        "512",
    ]);
    assert_eq!(out.code, 0, "{}", out.err);
    assert_eq!(
        disk.read(m).unwrap(),
        original,
        "source untouched with -o"
    );

    let get = disk.run(&["get", "patched.gguf", "sample.context_length"]);
    assert_eq!(get.out.trim(), "16384");
    let verify = disk.run(&["verify", "patched.gguf"]);
    assert_eq!(verify.code, 0, "{}", verify.out);
}

#[test]
fn dump_emits_json_the_shipped_parser_accepts() {
    let mut disk = Disk::with_sample();
    let out = disk.run(&["dump", "model.gguf"]);
    assert_eq!(out.code, 0);
    let doc = json::parse(&out.out).expect("dump is valid JSON");
    assert_eq!(doc.get("gguf_version"), Some(&json::Json::Int(3)));
    let tensors = doc.get("tensors").unwrap();
    let json::Json::Arr(items) = tensors else {
        panic!()
    };
    assert_eq!(items.len(), 2);
}

#[test]
fn apply_runs_a_json_patch_document_from_file_and_stdin() {
    let mut disk = Disk::with_sample();
    let m = "model.gguf";
    let patch = r#"{
  "delete": ["sample.block_count"],
  "rename": {"general.file_type": "general.quant_type"},
  "set": {
    "sample.context_length": 131072,
    "general.tag": {"type": "str", "value": "v2-fixed"}
  }
}"#;
    disk.write("patch.json", patch.as_bytes());

    let out = disk.run(&["apply", m, "patch.json"]);
    assert_eq!(out.code, 0, "{}", out.err);
    let text = out.out;
    assert!(text.contains("rm  sample.block_count"), "{text}");
    assert!(
        text.contains("rename general.file_type -> general.quant_type"),
        "{text}"
    );
    assert!(
        text.contains("set sample.context_length: u32 4096 -> u32 131072"),
        "{text}"
    );

    // Same document via stdin; the delete now fails (already deleted), and
    // atomicity means *nothing* else is applied either.
    let rerun = disk.run_with(&["apply", m, "-"], patch);
    assert_eq!(rerun.code, 1);
    assert!(rerun.err.contains("no such key"));
    let get = disk.run(&["get", m, "general.tag"]);
    assert_eq!(get.out.trim(), "v2-fixed", "first apply persisted");
}

#[test]
fn template_set_show_roundtrip_with_a_preset() {
    let mut disk = Disk::with_sample();
    let m = "model.gguf";

    let presets = disk.run(&["template", "presets"]);
    assert_eq!(presets.code, 0);
    for name in ["chatml", "llama3", "mistral", "zephyr", "alpaca"] {
        assert!(presets.out.contains(name), "{}", presets.out);
    }

    // llama3 is longer than the sample's chatml: needs --rewrite once.
    let refused = disk.run(&["template", "set", m, "--preset", "llama3"]);
    assert_eq!(refused.code, 1);
    let ok = disk.run(&[
        "template",
        "set",
        m,
        "--preset",
        "llama3",
        "--rewrite",
        "--reserve",
        "2K",
    ]);
    assert_eq!(ok.code, 0, "{}", ok.err);

    let show = disk.run(&["template", "show", m]);
    assert!(show.out.contains("<|start_header_id|>"), "{}", show.out);

    let unknown = disk.run(&["template", "set", m, "--preset", "vicuna"]);
    assert_eq!(unknown.code, 1);
    assert!(unknown.err.contains("unknown preset"));
}

#[test]
fn template_check_lints_files_and_refuses_broken_installs() {
    let mut disk = Disk::with_sample();
    let m = "model.gguf";

    let good = disk.run(&["template", "check", m]);
    assert_eq!(good.code, 0, "{}", good.out);
    assert!(good.out.contains("template OK"), "{}", good.out);

    disk.write(
        "broken.jinja",
        b"{% for m in messages %}{{ m.content }} add_generation_prompt",
    );
    let check = disk.run(&["template", "check", "--file", "broken.jinja"]);
    assert_eq!(check.code, 1);
    assert!(
        check.out.contains("unclosed '{% for %}'"),
        "{}",
        check.out
    );

    // Installing a broken template must be refused before any write.
    let before = disk.read(m).unwrap();
    let install = disk.run(&[
        "template",
        "set",
        m,
        "--file",
        "broken.jinja",
        "--rewrite",
    ]);
    assert_eq!(install.code, 1);
    assert!(install.err.contains("lint errors"), "{}", install.err);
    assert_eq!(disk.read(m).unwrap(), before);

    // --strict turns warnings into failures.
    disk.write("warny.jinja", b"{{ bos_token }} messages");
    let lax = disk.run(&["template", "check", "--file", "warny.jinja"]);
    assert_eq!(lax.code, 0);
    let strict = disk.run(&["template", "check", "--file", "warny.jinja", "--strict"]);
    assert_eq!(strict.code, 1);
}

#[test]
fn verify_passes_the_sample_and_fails_corrupted_files() {
    let mut disk = Disk::with_sample();
    let m = "model.gguf";

    let ok = disk.run(&["verify", m]);
    assert_eq!(ok.code, 0);
    assert!(ok.out.contains(": OK"), "{}", ok.out);
    assert!(ok.out.contains("2 tensors"), "{}", ok.out);
    assert_eq!(
        ok.out,
        "model.gguf: OK\n  gguf v3, 9 metadata keys, 2 tensors, data section 160 bytes\n"
    );

    // Corrupt the magic: not even parseable.
    let mut bytes = disk.read(m).unwrap();
    bytes[0] = b'X';
    disk.write("bad.gguf", &bytes);
    let broken = disk.run(&["verify", "bad.gguf"]);
    assert_eq!(broken.code, 1);
    assert!(broken.err.contains("not a GGUF file"), "{}", broken.err);

    // Truncate the data section: parses, but verification must fail.
    let original = disk.read(m).unwrap();
    disk.write("cut.gguf", &original[..original.len() - 100]);
    let short = disk.run(&["verify", "cut.gguf"]);
    assert_eq!(short.code, 1);
    assert!(short.out.contains("error:"), "{}", short.out);
}

#[test]
fn protected_alignment_key_is_refused_with_a_clear_reason() {
    let mut disk = Disk::with_sample();
    let m = "model.gguf";
    let before = disk.read(m).unwrap();

    let out = disk.run(&["set", m, "general.alignment=64"]);
    assert_eq!(out.code, 1);
    assert!(out.err.contains("alignment"), "{}", out.err);
    assert_eq!(
        disk.read(m).unwrap(),
        before,
        "refused edits write nothing"
    );
}

#[test]
fn wrong_numbers_of_arguments_are_usage_errors() {
    let mut disk = Disk::new();
    let cases: [(&[&str], &str); 14] = [
        (&["show"], "show takes exactly one FILE (see 'show --help')"),
        (&["get", "a"], "get takes FILE and KEY (see 'get --help')"),
        (&["set", "a"], "set takes FILE and at least one KEY=VALUE"),
        (&["set"], "set takes FILE and at least one KEY=VALUE"),
        (&["rm", "a"], "rm takes FILE and at least one KEY"),
        (&["rename", "a", "b"], "rename takes FILE, OLD_KEY and NEW_KEY"),
        (&["dump"], "dump takes exactly one FILE"),
        (
            &["apply", "a"],
            "apply takes FILE and PATCH.json (or '-' for stdin)",
        ),
        (&["verify", "a", "b"], "verify takes exactly one FILE"),
        (&["sample"], "sample takes exactly one FILE"),
        (
            &["template"],
            "template needs a subcommand: show, set, check or presets",
        ),
        (&["template", "show"], "template show takes exactly one FILE"),
        (
            &["template", "check", "a", "--file", "b"],
            "template check takes FILE or --file TPL",
        ),
        (
            &["template", "set", "a"],
            "template set needs exactly one of --preset or --file",
        ),
    ];
    for (args, message) in cases {
        let out = disk.run(args);
        assert_eq!(out.code, 2, "{args:?}");
        assert_eq!(out.err, message, "{args:?}");
    }
    let out = disk.run(&["template", "frob"]);
    assert_eq!(
        out.err,
        "unknown template subcommand 'frob' (show, set, check, presets)"
    );
    let out = disk.run(&["template", "set", "--preset", "chatml"]);
    assert_eq!(out.err, "template set takes FILE plus --preset or --file");
}

#[test]
fn options_that_need_a_value_say_so() {
    let mut disk = Disk::new();
    let cases: [(&[&str], &str); 9] = [
        (&["set", "a", "k=1", "-o"], "-o/--output needs a path"),
        (&["set", "a", "k=1", "--output"], "-o/--output needs a path"),
        (&["set", "a", "k=1", "--reserve"], "--reserve needs a size"),
        (&["template", "set", "a", "-o"], "-o needs a path"),
        (&["template", "set", "a", "--reserve"], "--reserve needs a size"),
        (&["template", "set", "a", "--preset"], "--preset needs a name"),
        (&["template", "set", "a", "--file"], "--file needs a path"),
        (&["template", "check", "--file"], "--file needs a path"),
        (
            &["set", "a", "k=1", "--frob"],
            "unknown option '--frob' (see --help)",
        ),
    ];
    for (args, message) in cases {
        let out = disk.run(args);
        assert_eq!(out.code, 2, "{args:?}");
        assert_eq!(out.err, message, "{args:?}");
    }
    let out = disk.run(&["template", "check", "-"]);
    assert_eq!(out.err, "unknown option '-'");
    let out = disk.run(&["set", "a", "k=1", "--reserve", "lots"]);
    assert_eq!(out.code, 2);
    assert!(out.err.contains("lots"), "{}", out.err);
    // A lone dash is a positional for the other commands.
    let out = disk.run(&["show", "-"]);
    assert_eq!(out.err, "cannot open -");
    // Write options are unknown to commands that only read.
    let out = disk.run(&["verify", "a", "--dry-run"]);
    assert_eq!(out.err, "unknown option '--dry-run' (see --help)");
}

#[test]
fn every_command_has_its_help() {
    let mut disk = Disk::new();
    for (args, title) in [
        (&["show", "--help"][..], "gguf-chisel show"),
        (&["get", "x", "-h"][..], "gguf-chisel get"),
        (&["set", "--help"][..], "gguf-chisel set"),
        (&["rm", "--help"][..], "gguf-chisel rm"),
        (&["rename", "--help"][..], "gguf-chisel rename"),
        (&["dump", "--help"][..], "gguf-chisel dump"),
        (&["apply", "--help"][..], "gguf-chisel apply"),
        (&["template", "show", "--help"][..], "gguf-chisel template"),
        (&["template", "set", "--help"][..], "gguf-chisel template"),
        (&["template", "check", "--help"][..], "gguf-chisel template"),
        (&["verify", "--help"][..], "gguf-chisel verify"),
        (&["sample", "--help"][..], "gguf-chisel sample"),
    ] {
        let out = disk.run(args);
        assert_eq!(out.code, 0, "{args:?}");
        assert!(out.out.starts_with(title), "{}", out.out);
        assert!(!out.out.contains("WRITE_OPTS"), "{}", out.out);
    }
    let set = disk.run(&["set", "--help"]).out;
    assert!(set.contains("OPTIONS:\n--dry-run"), "{set}");
    assert!(
        set.ends_with("headroom (accepts K/M/G)\n    -h, --help             Print this help\n"),
        "{set}"
    );
}

#[test]
fn patch_errors_name_their_source() {
    let mut disk = Disk::with_sample();
    disk.write("bad.json", b"{\n  oops");
    let out = disk.run(&["apply", "model.gguf", "bad.json"]);
    assert_eq!(out.code, 1);
    assert_eq!(out.err, "bad.json: expected a string key at 2:3");
    disk.write("odd.json", b"{\"sett\": {}}");
    let out = disk.run(&["apply", "model.gguf", "odd.json"]);
    assert_eq!(out.code, 1);
    assert!(out.err.starts_with("odd.json: "), "{}", out.err);
    assert!(out.err.contains("sett"), "{}", out.err);
}

#[test]
fn counts_read_like_prose() {
    assert_eq!(plural(0, "error"), "0 errors");
    assert_eq!(plural(1, "error"), "1 error");
    assert_eq!(plural(2, "tensor"), "2 tensors");
}

#[test]
fn lint_reports_list_findings_with_positions() {
    let (text, code) = lint_report("t", &lint("{{ x"), false);
    assert_eq!(code, 1);
    assert!(text.starts_with("t: 1 error, "), "{text}");
    assert!(text.contains("  error at 1:1: unclosed '{{'"), "{text}");
    let (text, code) = lint_report("t", &lint("messages add_generation_prompt"), true);
    assert_eq!((text.as_str(), code), ("t: template OK\n", 0));
}

#[test]
fn templates_that_are_missing_or_no_text_are_reported() {
    let mut disk = Disk::with_sample();
    let m = "model.gguf";
    disk.run(&["rm", m, "tokenizer.chat_template"]);
    let out = disk.run(&["template", "show", m]);
    assert_eq!(out.code, 1);
    assert_eq!(
        out.err,
        "model.gguf has no tokenizer.chat_template; set one with 'template set'"
    );
    disk.run(&["set", m, "tokenizer.chat_template=u32:7"]);
    let out = disk.run(&["template", "check", m]);
    assert_eq!(out.code, 1);
    assert_eq!(
        out.err,
        "tokenizer.chat_template is u32 rather than a string"
    );
}

#[test]
fn an_in_place_edit_notes_that_reserve_does_not_apply() {
    let mut disk = Disk::with_sample();
    let out = disk.run(&["set", "model.gguf", "general.file_type=1", "--reserve", "1K"]);
    assert_eq!(out.code, 0, "{}", out.err);
    let len = disk.data_region("model.gguf").0;
    assert_eq!(
        out.out,
        format!(
            "set general.file_type: u32 0 -> u32 1\n\
             note: --reserve only applies to rewrites; existing headroom kept\n\
             patched model.gguf in place: {len} head bytes written, tensor data untouched\n"
        )
    );
}

#[test]
fn the_sample_command_reports_its_size() {
    let mut disk = Disk::new();
    let out = disk.run(&["sample", "s.gguf"]);
    let n = disk.read("s.gguf").unwrap().len();
    assert_eq!(
        out.out,
        format!("wrote sample GGUF: s.gguf ({n} bytes, 2 tensors, 9 metadata keys)\n")
    );
    let bigger = disk.run(&["sample", "t.gguf", "--reserve", "4K"]);
    assert_eq!(bigger.code, 0);
    assert!(disk.read("t.gguf").unwrap().len() >= n + 4096);
}
