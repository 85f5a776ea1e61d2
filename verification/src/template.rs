//! Chat-template support: a small library of well-known template presets and
//! a linter for the Jinja subset that chat templates actually use. The linter
//! is not a Jinja engine — it checks the things that break model runtimes in
//! practice: unbalanced `{{ }}` / `{% %}` delimiters, mismatched or unclosed
//! block statements, and templates that forget the `messages` loop.

use crate::text::{
    chars_of, contains_text, dec, has_text, is_alnum, is_alnum_char, is_white, is_white_char,
    push_dec, starts_at, starts_here, str_eq, string_of, trim_end, trim_start,
};
use vstd::prelude::*;
use vstd::string::*;

verus! {

// ---------------------------------------------------------------------------
// Presets
// ---------------------------------------------------------------------------

/// ChatML markers.
pub const CHATML: &'static str =
    "{% for message in messages %}{{ '<|im_start|>' + message['role'] + '\\n' + message['content'] + '<|im_end|>' + '\\n' }}{% endfor %}{% if add_generation_prompt %}{{ '<|im_start|>assistant\\n' }}{% endif %}";

/// `[INST]` blocks with a system section.
pub const LLAMA2: &'static str =
    "{{ bos_token }}{% for message in messages %}{% if message['role'] == 'system' %}{{ '<<SYS>>\\n' + message['content'] + '\\n<</SYS>>\\n\\n' }}{% elif message['role'] == 'user' %}{{ '[INST] ' + message['content'] + ' [/INST]' }}{% elif message['role'] == 'assistant' %}{{ ' ' + message['content'] + ' ' + eos_token }}{% endif %}{% endfor %}";

/// Header framing with turn ends.
pub const LLAMA3: &'static str =
    "{{ bos_token }}{% for message in messages %}{{ '<|start_header_id|>' + message['role'] + '<|end_header_id|>\\n\\n' + message['content'] + '<|eot_id|>' }}{% endfor %}{% if add_generation_prompt %}{{ '<|start_header_id|>assistant<|end_header_id|>\\n\\n' }}{% endif %}";

/// `[INST]` blocks without a system section.
pub const MISTRAL: &'static str =
    "{{ bos_token }}{% for message in messages %}{% if message['role'] == 'user' %}{{ '[INST] ' + message['content'] + ' [/INST]' }}{% elif message['role'] == 'assistant' %}{{ message['content'] + eos_token }}{% endif %}{% endfor %}";

/// Role markers with an end token after every turn.
pub const ZEPHYR: &'static str =
    "{% for message in messages %}{{ '<|' + message['role'] + '|>\\n' + message['content'] + eos_token + '\\n' }}{% endfor %}{% if add_generation_prompt %}{{ '<|assistant|>\\n' }}{% endif %}";

/// Instruction and response sections.
pub const ALPACA: &'static str =
    "{% for message in messages %}{% if message['role'] == 'system' %}{{ message['content'] + '\\n\\n' }}{% elif message['role'] == 'user' %}{{ '### Instruction:\\n' + message['content'] + '\\n\\n' }}{% elif message['role'] == 'assistant' %}{{ '### Response:\\n' + message['content'] + '\\n\\n' }}{% endif %}{% endfor %}{% if add_generation_prompt %}{{ '### Response:\\n' }}{% endif %}";

/// The template source of a preset.
pub open spec fn preset_source(name: Seq<char>) -> Option<Seq<char>> {
    if name == "chatml"@ {
        Some(CHATML@)
    } else if name == "llama2"@ {
        Some(LLAMA2@)
    } else if name == "llama3"@ {
        Some(LLAMA3@)
    } else if name == "mistral"@ {
        Some(MISTRAL@)
    } else if name == "zephyr"@ {
        Some(ZEPHYR@)
    } else if name == "alpaca"@ {
        Some(ALPACA@)
    } else {
        None
    }
}

/// The ChatML template is short.
pub proof fn lemma_chatml_len()
    ensures
        CHATML@.len() <= 400,
{
    reveal_strlit(
        "{% for message in messages %}{{ '<|im_start|>' + message['role'] + '\\n' + message['content'] + '<|im_end|>' + '\\n' }}{% endfor %}{% if add_generation_prompt %}{{ '<|im_start|>assistant\\n' }}{% endif %}",
    );
}

/// The text of an optional string.
pub open spec fn opt_text(s: Option<&str>) -> Option<Seq<char>> {
    match s {
        Some(t) => Some(t@),
        None => None,
    }
}

/// Template source for a preset name. The presets are the community-standard
/// variants of each format; always compare against your model card before
/// shipping a re-templated file.
pub fn preset(name: &str) -> (r: Option<&'static str>)
    ensures
        opt_text(r) == preset_source(name@),
{
    if str_eq(name, "chatml") {
        Some(CHATML)
    } else if str_eq(name, "llama2") {
        Some(LLAMA2)
    } else if str_eq(name, "llama3") {
        Some(LLAMA3)
    } else if str_eq(name, "mistral") {
        Some(MISTRAL)
    } else if str_eq(name, "zephyr") {
        Some(ZEPHYR)
    } else if str_eq(name, "alpaca") {
        Some(ALPACA)
    } else {
        None
    }
}

/// The names of the presets, with their one-line descriptions.
pub open spec fn preset_list() -> Seq<(Seq<char>, Seq<char>)> {
    seq![
        ("chatml"@, "ChatML <|im_start|> markers (Qwen and many fine-tunes)"@),
        ("llama2"@, "[INST] blocks with a <<SYS>> system section"@),
        ("llama3"@, "<|start_header_id|> framing with <|eot_id|> turn ends"@),
        ("mistral"@, "[INST] blocks, no system section"@),
        ("zephyr"@, "<|role|> markers with eos after every turn"@),
        ("alpaca"@, "### Instruction / ### Response sections"@),
    ]
}

/// The texts of pairs of strings.
pub open spec fn pair_texts(pairs: Seq<(&'static str, &'static str)>) -> Seq<
    (Seq<char>, Seq<char>),
> {
    Seq::new(pairs.len(), |i: int| (pairs[i].0@, pairs[i].1@))
}

/// All preset names with their one-line descriptions.
pub fn preset_names() -> (r: Vec<(&'static str, &'static str)>)
    ensures
        pair_texts(r@) == preset_list(),
{
    let mut v: Vec<(&'static str, &'static str)> = Vec::new();
    v.push(("chatml", "ChatML <|im_start|> markers (Qwen and many fine-tunes)"));
    v.push(("llama2", "[INST] blocks with a <<SYS>> system section"));
    v.push(("llama3", "<|start_header_id|> framing with <|eot_id|> turn ends"));
    v.push(("mistral", "[INST] blocks, no system section"));
    v.push(("zephyr", "<|role|> markers with eos after every turn"));
    v.push(("alpaca", "### Instruction / ### Response sections"));
    assert(pair_texts(v@) =~= preset_list());
    v
}

// ---------------------------------------------------------------------------
// Findings
// ---------------------------------------------------------------------------

#[derive(Clone, Copy, Debug, PartialEq, Eq, Structural)]
pub enum Severity {
    Error,
    Warning,
}

/// One lint finding. `pos` is the 1-based (line, column) of the offending
/// token, or `None` for whole-template findings.
#[derive(Debug, PartialEq, Eq)]
pub struct Issue {
    pub severity: Severity,
    pub pos: Option<(usize, usize)>,
    pub message: String,
}

/// What an [`Issue`] says.
pub struct SpecIssue {
    pub severity: Severity,
    pub pos: Option<(nat, nat)>,
    pub message: Seq<char>,
}

impl View for Issue {
    type V = SpecIssue;

    open spec fn view(&self) -> SpecIssue {
        SpecIssue {
            severity: self.severity,
            pos: match self.pos {
                Some((l, c)) => Some((l as nat, c as nat)),
                None => None,
            },
            message: self.message@,
        }
    }
}

/// What each issue of a sequence says.
pub open spec fn issues_view(issues: Seq<Issue>) -> Seq<SpecIssue> {
    Seq::new(issues.len(), |i: int| issues[i]@)
}

/// How many issues are errors.
pub open spec fn errors_among(issues: Seq<SpecIssue>) -> nat
    decreases issues.len(),
{
    if issues.len() == 0 {
        0
    } else {
        errors_among(issues.drop_last()) + if issues.last().severity == Severity::Error {
            1
        } else {
            0nat
        }
    }
}

/// There are at most as many errors as issues.
pub proof fn lemma_errors_among(issues: Seq<SpecIssue>)
    ensures
        errors_among(issues) <= issues.len(),
    decreases issues.len(),
{
    if issues.len() > 0 {
        lemma_errors_among(issues.drop_last());
    }
}

/// Count of error-severity issues.
pub fn error_count(issues: &[Issue]) -> (r: usize)
    ensures
        r == errors_among(issues_view(issues@)),
{
    let ghost all = issues_view(issues@);
    let mut n: usize = 0;
    let mut i: usize = 0;
    while i < issues.len()
        invariant
            i <= issues@.len(),
            n <= i,
            all == issues_view(issues@),
            n == errors_among(all.take(i as int)),
        decreases issues@.len() - i,
    {
        assert(all.take(i + 1).drop_last() =~= all.take(i as int));
        assert(all.take(i + 1).last() == issues@[i as int]@);
        if issues[i].severity == Severity::Error {
            n += 1;
        }
        i += 1;
    }
    assert(all.take(i as int) =~= all);
    n
}

// ---------------------------------------------------------------------------
// Scanning
// ---------------------------------------------------------------------------

/// The 1-based line and column behind a piece of text.
pub open spec fn end_position(s: Seq<char>) -> (nat, nat)
    decreases s.len(),
{
    if s.len() == 0 {
        (1, 1)
    } else {
        let (line, col) = end_position(s.drop_last());
        if s.last() == '\n' {
            (line + 1, 1)
        } else {
            (line, col + 1)
        }
    }
}

/// The 1-based line and column of position `i`.
pub open spec fn position(s: Seq<char>, i: int) -> (nat, nat) {
    end_position(s.take(i))
}

/// The 1-based line and column of position `at`.
fn line_col(src: &Vec<char>, at: usize) -> (r: (usize, usize))
    requires
        at < src@.len(),
    ensures
        (r.0 as nat, r.1 as nat) == position(src@, at as int),
{
    let n: usize = src.len();
    let mut line: usize = 1;
    let mut col: usize = 1;
    let mut i: usize = 0;
    assert(src@.take(0) =~= Seq::<char>::empty());
    while i < at
        invariant
            i <= at < src@.len(),
            n == src@.len(),
            line <= 1 + i,
            col <= 1 + i,
            (line as nat, col as nat) == position(src@, i as int),
        decreases at - i,
    {
        assert(src@.take(i + 1).drop_last() =~= src@.take(i as int));
        if src[i] == '\n' {
            line += 1;
            col = 1;
        } else {
            col += 1;
        }
        i += 1;
    }
    (line, col)
}

/// The position behind the quote that ends a quoted string, from `i` inside it;
/// the end of the text where it does not end.
pub open spec fn after_quote(s: Seq<char>, i: int, quote: char) -> int
    decreases
            (if i < s.len() {
                s.len() - i
            } else {
                0
            }),
{
    if i >= s.len() {
        s.len() as int
    } else if s[i] == quote {
        i + 1
    } else if s[i] == '\\' {
        after_quote(s, i + 2, quote)
    } else {
        after_quote(s, i + 1, quote)
    }
}

/// A quoted string is left behind.
pub proof fn lemma_after_quote(s: Seq<char>, i: int, quote: char)
    requires
        0 <= i <= s.len(),
    ensures
        i <= after_quote(s, i, quote) <= s.len(),
        i < s.len() ==> i < after_quote(s, i, quote),
    decreases s.len() - i,
{
    if i < s.len() && s[i] != quote {
        if s[i] == '\\' {
            if i + 2 <= s.len() {
                lemma_after_quote(s, i + 2, quote);
            }
        } else {
            lemma_after_quote(s, i + 1, quote);
        }
    }
}

/// The position behind the first `closer` from `i` on that is not inside a
/// quoted string — chat templates routinely embed `{` and `}` inside string
/// literals (tool-call JSON, for one).
pub open spec fn closer_end(s: Seq<char>, i: int, closer: Seq<char>) -> Option<int>
    decreases s.len() - i,
{
    if i < 0 || i >= s.len() {
        None
    } else if s[i] == '\'' || s[i] == '"' {
        proof {
            lemma_after_quote(s, i + 1, s[i]);
        }
        closer_end(s, after_quote(s, i + 1, s[i]), closer)
    } else if starts_at(s, i, closer) {
        Some(i + closer.len())
    } else {
        closer_end(s, i + 1, closer)
    }
}

/// A closer that was found ends inside the text and after the start.
pub proof fn lemma_closer_end(s: Seq<char>, i: int, closer: Seq<char>)
    requires
        0 <= i,
    ensures
        closer_end(s, i, closer) matches Some(e) ==> i + closer.len() <= e <= s.len(),
    decreases s.len() - i,
{
    if i < s.len() {
        if s[i] == '\'' || s[i] == '"' {
            lemma_after_quote(s, i + 1, s[i]);
            lemma_closer_end(s, after_quote(s, i + 1, s[i]), closer);
        } else if !starts_at(s, i, closer) {
            lemma_closer_end(s, i + 1, closer);
        }
    }
}

/// Scan from `start` (just past an opener) to the matching `closer`, skipping
/// over quoted strings. Returns the position *after* the closer, or `None` at
/// the end of the text.
fn scan_to_closer(src: &Vec<char>, start: usize, closer: &Vec<char>) -> (r: Option<usize>)
    requires
        start <= src@.len(),
    ensures
        match r {
            Some(e) => closer_end(src@, start as int, closer@) == Some(e as int) && start
                + closer@.len() <= e <= src@.len(),
            None => closer_end(src@, start as int, closer@) is None,
        },
{
    proof {
        lemma_closer_end(src@, start as int, closer@);
    }
    let n: usize = src.len();
    let mut i: usize = start;
    while i < n
        invariant
            start <= i <= n,
            n == src@.len(),
            closer_end(src@, start as int, closer@) == closer_end(src@, i as int, closer@),
            closer_end(src@, start as int, closer@) matches Some(e) ==> start + closer@.len() <= e
                <= src@.len(),
        decreases n - i,
    {
        let c = src[i];
        if c == '\'' || c == '"' {
            let ghost at = i as int;
            let ghost target = after_quote(src@, at + 1, c);
            let mut j: usize = i + 1;
            let mut done = false;
            proof {
                lemma_after_quote(src@, at + 1, c);
            }
            while j < n && !done
                invariant
                    at < j <= n,
                    n == src@.len(),
                    target <= n,
                    !done ==> after_quote(src@, j as int, c) == target,
                    done ==> j == target,
                decreases n - j + if done {
                    0int
                } else {
                    1
                },
            {
                if src[j] == c {
                    j += 1;
                    done = true;
                } else if src[j] == '\\' {
                    if n - j >= 2 {
                        j += 2;
                    } else {
                        assert(after_quote(src@, j + 2, c) == n);
                        j = n;
                    }
                } else {
                    j += 1;
                }
            }
            i = j;
        } else if starts_here(src, i, closer) {
            return Some(i + closer.len());
        } else {
            i += 1;
        }
    }
    None
}

/// Text without its leading `-` and `+` whitespace-control markers.
pub open spec fn without_marks(s: Seq<char>) -> Seq<char>
    decreases s.len(),
{
    if s.len() > 0 && (s[0] == '-' || s[0] == '+') {
        without_marks(s.drop_first())
    } else {
        s
    }
}

/// The identifier that a text starts with.
pub open spec fn leading_word(s: Seq<char>) -> Seq<char>
    decreases s.len(),
{
    if s.len() > 0 && (is_alnum(s[0]) || s[0] == '_') {
        seq![s[0]] + leading_word(s.drop_first())
    } else {
        Seq::empty()
    }
}

/// The first identifier of a statement body, with whitespace-control markers
/// stripped.
pub open spec fn tag_of(body: Seq<char>) -> Seq<char> {
    leading_word(trim_end(trim_start(without_marks(body))))
}

/// Trailing white space does not belong to the first identifier.
pub proof fn lemma_leading_word_trim(s: Seq<char>)
    ensures
        leading_word(trim_end(s)) == leading_word(s),
    decreases s.len(),
{
    if s.len() > 0 && is_white(s.last()) {
        lemma_leading_word_trim(s.drop_last());
        lemma_leading_word_drop(s);
    }
}

proof fn lemma_leading_word_drop(s: Seq<char>)
    requires
        s.len() > 0,
        is_white(s.last()),
    ensures
        leading_word(s.drop_last()) == leading_word(s),
    decreases s.len(),
{
    if s.len() == 1 {
        assert(s[0] == s.last());
    } else {
        let t = s.drop_first();
        lemma_leading_word_drop(t);
        assert(s.drop_last().drop_first() =~= t.drop_last());
    }
}

/// The first identifier of the statement body `src[from..to]`.
fn stmt_tag(src: &Vec<char>, from: usize, to: usize) -> (r: String)
    requires
        from <= to <= src@.len(),
    ensures
        r@ == tag_of(src@.subrange(from as int, to as int)),
{
    let ghost body = src@.subrange(from as int, to as int);
    let mut i: usize = from;
    while i < to && (src[i] == '-' || src[i] == '+')
        invariant
            from <= i <= to <= src@.len(),
            without_marks(body) == without_marks(src@.subrange(i as int, to as int)),
        decreases to - i,
    {
        assert(src@.subrange(i as int, to as int).drop_first() =~= src@.subrange(
            i + 1,
            to as int,
        ));
        i += 1;
    }
    let ghost bare = src@.subrange(i as int, to as int);
    assert(without_marks(body) == bare);
    while i < to && is_white_char(src[i])
        invariant
            from <= i <= to <= src@.len(),
            trim_start(bare) == trim_start(src@.subrange(i as int, to as int)),
        decreases to - i,
    {
        assert(src@.subrange(i as int, to as int).drop_first() =~= src@.subrange(
            i + 1,
            to as int,
        ));
        i += 1;
    }
    let ghost text = src@.subrange(i as int, to as int);
    assert(trim_start(bare) == text);
    let mut out = String::new();
    assert(out@ + leading_word(text) =~= leading_word(text));
    while i < to && (is_alnum_char(src[i]) || src[i] == '_')
        invariant
            from <= i <= to <= src@.len(),
            leading_word(text) == out@ + leading_word(src@.subrange(i as int, to as int)),
        decreases to - i,
    {
        let ghost left = src@.subrange(i as int, to as int);
        let ghost before = out@;
        out.push(src[i]);
        proof {
            assert(left.drop_first() =~= src@.subrange(i + 1, to as int));
            let rest = leading_word(left.drop_first());
            assert(before + (seq![left[0]] + rest) =~= out@ + rest);
        }
        i += 1;
    }
    proof {
        assert(out@ + Seq::<char>::empty() =~= out@);
        lemma_leading_word_trim(text);
    }
    out
}

// ---------------------------------------------------------------------------
// Linting
// ---------------------------------------------------------------------------

/// The tag that a block-closing tag closes.
pub open spec fn opener_of(tag: Seq<char>) -> Option<Seq<char>> {
    if tag == "endfor"@ {
        Some("for"@)
    } else if tag == "endif"@ {
        Some("if"@)
    } else if tag == "endmacro"@ {
        Some("macro"@)
    } else if tag == "endfilter"@ {
        Some("filter"@)
    } else if tag == "endblock"@ {
        Some("block"@)
    } else if tag == "endgeneration"@ {
        Some("generation"@)
    } else if tag == "endset"@ {
        Some("set"@)
    } else {
        None
    }
}

/// Tags that open a block. (`set` does so in its block form only; inline
/// `set x = ...` has no closer.)
pub open spec fn opens_block(tag: Seq<char>) -> bool {
    ||| tag == "for"@
    ||| tag == "if"@
    ||| tag == "macro"@
    ||| tag == "filter"@
    ||| tag == "block"@
    ||| tag == "generation"@
    ||| tag == "set"@
}

/// Tags that are complete on their own.
pub open spec fn is_inline_tag(tag: Seq<char>) -> bool {
    ||| tag == "include"@
    ||| tag == "import"@
    ||| tag == "from"@
    ||| tag == "do"@
    ||| tag == "break"@
    ||| tag == "continue"@
}

/// An error at position `i`.
pub open spec fn error_at(s: Seq<char>, i: int, message: Seq<char>) -> SpecIssue {
    SpecIssue { severity: Severity::Error, pos: Some(position(s, i)), message }
}

/// A warning at position `i`.
pub open spec fn warning_at(s: Seq<char>, i: int, message: Seq<char>) -> SpecIssue {
    SpecIssue { severity: Severity::Warning, pos: Some(position(s, i)), message }
}

/// A block that is open: its tag, and where it was opened.
pub struct OpenBlock {
    pub tag: Seq<char>,
    pub at: int,
}

/// What one statement does: the findings, and the blocks open behind it.
pub open spec fn statement(s: Seq<char>, open: int, end: int, stack: Seq<OpenBlock>) -> (
    Seq<SpecIssue>,
    Seq<OpenBlock>,
) {
    let body = s.subrange(open + 2, end - 2);
    let tag = tag_of(body);
    if tag == "elif"@ {
        if stack.len() > 0 && stack.last().tag == "if"@ {
            (Seq::empty(), stack)
        } else {
            (seq![error_at(s, open, "'{% "@ + tag + " %}' outside "@ + "'{% if %}'"@)], stack)
        }
    } else if tag == "else"@ {
        if stack.len() > 0 && (stack.last().tag == "if"@ || stack.last().tag == "for"@) {
            (Seq::empty(), stack)
        } else {
            (
                seq![
                    error_at(
                        s,
                        open,
                        "'{% "@ + tag + " %}' outside "@ + "'{% if %}'/'{% for %}'"@,
                    ),
                ],
                stack,
            )
        }
    } else if let Some(opener) = opener_of(tag) {
        if stack.len() == 0 {
            (
                seq![
                    error_at(
                        s,
                        open,
                        "'{% "@ + tag + " %}' without a matching '{% "@ + opener + " %}'"@,
                    ),
                ],
                stack,
            )
        } else if stack.last().tag == opener {
            (Seq::empty(), stack.drop_last())
        } else {
            let (line, col) = position(s, stack.last().at);
            (
                seq![
                    error_at(
                        s,
                        open,
                        "'{% "@ + tag + " %}' closes '{% "@ + stack.last().tag
                            + " %}' opened at "@ + dec(line) + ":"@ + dec(col),
                    ),
                ],
                stack.drop_last(),
            )
        }
    } else if opens_block(tag) {
        if tag == "set"@ && body.contains('=') {
            (Seq::empty(), stack)
        } else {
            (Seq::empty(), stack.push(OpenBlock { tag, at: open }))
        }
    } else if tag.len() == 0 {
        (seq![error_at(s, open, "empty '{% %}' statement"@)], stack)
    } else if !is_inline_tag(tag) {
        (seq![warning_at(s, open, "unknown statement tag '"@ + tag + "'"@)], stack)
    } else {
        (Seq::empty(), stack)
    }
}

/// The position behind the statement that ends a raw block, from `j` inside it.
pub open spec fn raw_end(s: Seq<char>, j: int) -> Option<int>
    decreases s.len() - j,
{
    if j >= s.len() {
        None
    } else if starts_at(s, j, "{%"@) {
        match closer_end(s, j + 2, "%}"@) {
            Some(e) => if tag_of(s.subrange(j + 2, e - 2)) == "endraw"@ {
                Some(e)
            } else if j + 2 <= s.len() {
                raw_end(s, j + 2)
            } else {
                None
            },
            None => if j + 2 <= s.len() {
                raw_end(s, j + 2)
            } else {
                None
            },
        }
    } else {
        raw_end(s, j + 1)
    }
}

/// An expression or a statement is opened, outside of quoted strings.
pub open spec fn opener_outside_quotes(inner: Seq<char>) -> bool {
    closer_end(inner, 0, "{{"@) is Some || closer_end(inner, 0, "{%"@) is Some
}

/// What one look at position `i` gives: findings, blocks open behind it, and
/// where to go on (`None` where linting stops).
pub struct Look {
    pub found: Seq<SpecIssue>,
    pub stack: Seq<OpenBlock>,
    pub next: Option<int>,
}

/// One look at position `i`, with the blocks in `stack` open.
pub open spec fn look(s: Seq<char>, i: int, stack: Seq<OpenBlock>) -> Look {
    if starts_at(s, i, "{{"@) {
        match closer_end(s, i + 2, "}}"@) {
            Some(end) => {
                let inner = s.subrange(i + 2, end - 2);
                Look {
                    found: if opener_outside_quotes(inner) {
                        seq![error_at(s, i, "'{{' opened again inside an expression"@)]
                    } else {
                        Seq::empty()
                    },
                    stack,
                    next: Some(end),
                }
            },
            None => Look {
                found: seq![error_at(s, i, "unclosed '{{' expression"@)],
                stack,
                next: None,
            },
        }
    } else if starts_at(s, i, "{%"@) {
        match closer_end(s, i + 2, "%}"@) {
            Some(end) => if tag_of(s.subrange(i + 2, end - 2)) == "raw"@ {
                match raw_end(s, end) {
                    Some(e) => Look { found: Seq::empty(), stack, next: Some(e) },
                    None => Look {
                        found: seq![error_at(s, i, "'{% raw %}' without '{% endraw %}'"@)],
                        stack,
                        next: None,
                    },
                }
            } else {
                let (found, after) = statement(s, i, end, stack);
                Look { found, stack: after, next: Some(end) }
            },
            None => Look {
                found: seq![error_at(s, i, "unclosed '{%' statement"@)],
                stack,
                next: None,
            },
        }
    } else if starts_at(s, i, "{#"@) {
        match closer_end(s, i + 2, "#}"@) {
            Some(end) => Look { found: Seq::empty(), stack, next: Some(end) },
            None => Look {
                found: seq![error_at(s, i, "unclosed '{#' comment"@)],
                stack,
                next: None,
            },
        }
    } else if starts_at(s, i, "}}"@) || starts_at(s, i, "%}"@) {
        Look {
            found: seq![
                warning_at(
                    s,
                    i,
                    "stray '"@ + s.subrange(i, i + 2) + "' outside any expression"@,
                ),
            ],
            stack,
            next: Some(i + 2),
        }
    } else {
        Look { found: Seq::empty(), stack, next: Some(i + 1) }
    }
}

/// The delimiters are two characters long.
proof fn lemma_delimiters()
    ensures
        "{{"@.len() == 2,
        "}}"@.len() == 2,
        "{%"@.len() == 2,
        "%}"@.len() == 2,
        "{#"@.len() == 2,
        "#}"@.len() == 2,
{
    reveal_strlit("{{");
    reveal_strlit("}}");
    reveal_strlit("{%");
    reveal_strlit("%}");
    reveal_strlit("{#");
    reveal_strlit("#}");
}

/// The end of a raw block lies ahead.
pub proof fn lemma_raw_end(s: Seq<char>, j: int)
    requires
        0 <= j,
    ensures
        raw_end(s, j) matches Some(e) ==> j + 4 <= e <= s.len(),
    decreases s.len() - j,
{
    lemma_delimiters();
    if j < s.len() {
        lemma_closer_end(s, j + 2, "%}"@);
        if starts_at(s, j, "{%"@) {
            if j + 2 <= s.len() {
                lemma_raw_end(s, j + 2);
            }
        } else {
            lemma_raw_end(s, j + 1);
        }
    }
}

/// Looking moves forward, inside the text.
pub proof fn lemma_look(s: Seq<char>, i: int, stack: Seq<OpenBlock>)
    requires
        0 <= i < s.len(),
    ensures
        look(s, i, stack).next matches Some(e) ==> i < e <= s.len(),
{
    lemma_delimiters();
    lemma_closer_end(s, i + 2, "}}"@);
    lemma_closer_end(s, i + 2, "%}"@);
    lemma_closer_end(s, i + 2, "#}"@);
    if let Some(e) = closer_end(s, i + 2, "%}"@) {
        lemma_raw_end(s, e);
    }
}

/// The findings from position `i` on, and the blocks that stay open.
pub open spec fn lint_from(s: Seq<char>, i: int, stack: Seq<OpenBlock>) -> (
    Seq<SpecIssue>,
    Seq<OpenBlock>,
)
    decreases s.len() - i,
{
    if i < 0 || i >= s.len() {
        (Seq::empty(), stack)
    } else {
        let l = look(s, i, stack);
        match l.next {
            Some(next) => {
                proof {
                    lemma_look(s, i, stack);
                }
                let (rest, open) = lint_from(s, next, l.stack);
                (l.found + rest, open)
            },
            None => (l.found, l.stack),
        }
    }
}

/// The findings about blocks that are never closed.
pub open spec fn unclosed(s: Seq<char>, stack: Seq<OpenBlock>) -> Seq<SpecIssue> {
    Seq::new(
        stack.len(),
        |i: int| error_at(s, stack[i].at, "unclosed '{% "@ + stack[i].tag + " %}'"@),
    )
}

/// The findings about a template as a whole.
pub open spec fn hints(s: Seq<char>) -> Seq<SpecIssue> {
    (if has_text(s, "messages"@) {
        Seq::empty()
    } else {
        seq![
            SpecIssue {
                severity: Severity::Warning,
                pos: None,
                message:
                    "template never references 'messages' — runtimes pass the chat there"@,
            },
        ]
    }) + (if has_text(s, "add_generation_prompt"@) {
        Seq::empty()
    } else {
        seq![
            SpecIssue {
                severity: Severity::Warning,
                pos: None,
                message:
                    "template never checks 'add_generation_prompt'; bare generation prompts may be impossible"@,
            },
        ]
    })
}

/// All findings about a template.
pub open spec fn findings(s: Seq<char>) -> Seq<SpecIssue> {
    if trim_end(trim_start(s)).len() == 0 {
        seq![
            SpecIssue {
                severity: Severity::Error,
                pos: None,
                message: "template is empty"@,
            },
        ]
    } else {
        let (found, stack) = lint_from(s, 0, Seq::empty());
        found + unclosed(s, stack) + hints(s)
    }
}

/// A block that is open: its tag, and where it was opened.
struct Block {
    tag: String,
    at: usize,
}

/// The open blocks, as the findings speak of them.
spec fn blocks_view(stack: Seq<Block>) -> Seq<OpenBlock> {
    Seq::new(stack.len(), |i: int| OpenBlock { tag: stack[i].tag@, at: stack[i].at as int })
}

/// Every open block was opened inside the text.
spec fn blocks_inside(stack: Seq<Block>, len: nat) -> bool {
    forall|i: int| 0 <= i < stack.len() ==> (#[trigger] stack[i]).at < len
}

/// Record an error at position `at`.
fn push_error(issues: &mut Vec<Issue>, src: &Vec<char>, at: usize, message: String)
    requires
        at < src@.len(),
    ensures
        issues_view(final(issues)@) == issues_view(old(issues)@) + seq![
            error_at(src@, at as int, message@),
        ],
{
    let (l, c) = line_col(src, at);
    issues.push(Issue { severity: Severity::Error, pos: Some((l, c)), message });
    assert(issues_view(issues@) =~= issues_view(old(issues)@) + seq![
        error_at(src@, at as int, message@),
    ]);
}

/// Record a warning at position `at`.
fn push_warning(issues: &mut Vec<Issue>, src: &Vec<char>, at: usize, message: String)
    requires
        at < src@.len(),
    ensures
        issues_view(final(issues)@) == issues_view(old(issues)@) + seq![
            warning_at(src@, at as int, message@),
        ],
{
    let (l, c) = line_col(src, at);
    issues.push(Issue { severity: Severity::Warning, pos: Some((l, c)), message });
    assert(issues_view(issues@) =~= issues_view(old(issues)@) + seq![
        warning_at(src@, at as int, message@),
    ]);
}

/// The tag that a block-closing tag closes.
fn opener(tag: &str) -> (r: Option<&'static str>)
    ensures
        opt_text(r) == opener_of(tag@),
{
    if str_eq(tag, "endfor") {
        Some("for")
    } else if str_eq(tag, "endif") {
        Some("if")
    } else if str_eq(tag, "endmacro") {
        Some("macro")
    } else if str_eq(tag, "endfilter") {
        Some("filter")
    } else if str_eq(tag, "endblock") {
        Some("block")
    } else if str_eq(tag, "endgeneration") {
        Some("generation")
    } else if str_eq(tag, "endset") {
        Some("set")
    } else {
        None
    }
}

/// Whether a tag opens a block.
fn is_opener(tag: &str) -> (r: bool)
    ensures
        r == opens_block(tag@),
{
    str_eq(tag, "for") || str_eq(tag, "if") || str_eq(tag, "macro") || str_eq(tag, "filter")
        || str_eq(tag, "block") || str_eq(tag, "generation") || str_eq(tag, "set")
}

/// Whether a tag is complete on its own.
fn is_inline(tag: &str) -> (r: bool)
    ensures
        r == is_inline_tag(tag@),
{
    str_eq(tag, "include") || str_eq(tag, "import") || str_eq(tag, "from") || str_eq(tag, "do")
        || str_eq(tag, "break") || str_eq(tag, "continue")
}

/// Whether `c` occurs in `src[from..to]`.
fn has_char(src: &Vec<char>, from: usize, to: usize, c: char) -> (r: bool)
    requires
        from <= to <= src@.len(),
    ensures
        r == src@.subrange(from as int, to as int).contains(c),
{
    let ghost t = src@.subrange(from as int, to as int);
    let mut i: usize = from;
    while i < to
        invariant
            from <= i <= to <= src@.len(),
            t == src@.subrange(from as int, to as int),
            forall|j: int| 0 <= j < i - from ==> t[j] != c,
        decreases to - i,
    {
        assert(t[i - from] == src@[i as int]);
        if src[i] == c {
            return true;
        }
        i += 1;
    }
    false
}

/// The characters `src[from..to]`.
fn slice_of(src: &Vec<char>, from: usize, to: usize) -> (r: Vec<char>)
    requires
        from <= to <= src@.len(),
    ensures
        r@ == src@.subrange(from as int, to as int),
{
    let mut out: Vec<char> = Vec::new();
    let mut i: usize = from;
    while i < to
        invariant
            from <= i <= to <= src@.len(),
            out@ == src@.subrange(from as int, i as int),
        decreases to - i,
    {
        out.push(src[i]);
        i += 1;
        assert(out@ =~= src@.subrange(from as int, i as int));
    }
    out
}

/// Handle the statement `src[open..end]` (anything but a raw block).
fn lint_statement(
    src: &Vec<char>,
    open: usize,
    end: usize,
    stack: &mut Vec<Block>,
    issues: &mut Vec<Issue>,
)
    requires
        open + 4 <= end <= src@.len(),
        blocks_inside(old(stack)@, src@.len()),
    ensures
        blocks_inside(final(stack)@, src@.len()),
        ({
            let (found, after) = statement(
                src@,
                open as int,
                end as int,
                blocks_view(old(stack)@),
            );
            &&& issues_view(final(issues)@) == issues_view(old(issues)@) + found
            &&& blocks_view(final(stack)@) == after
        }),
{
    let ghost before = issues_view(issues@);
    let ghost blocks = blocks_view(stack@);
    assert(before + Seq::<SpecIssue>::empty() =~= before);
    let tag = stmt_tag(src, open + 2, end - 2);
    let depth: usize = stack.len();
    if str_eq(tag.as_str(), "elif") {
        let ok = depth > 0 && str_eq(stack[depth - 1].tag.as_str(), "if");
        if !ok {
            let mut m = "'{% ".to_string();
            m.append(tag.as_str());
            m.append(" %}' outside ");
            m.append("'{% if %}'");
            push_error(issues, src, open, m);
        }
    } else if str_eq(tag.as_str(), "else") {
        let ok = depth > 0 && (str_eq(stack[depth - 1].tag.as_str(), "if") || str_eq(
            stack[depth - 1].tag.as_str(),
            "for",
        ));
        if !ok {
            let mut m = "'{% ".to_string();
            m.append(tag.as_str());
            m.append(" %}' outside ");
            m.append("'{% if %}'/'{% for %}'");
            push_error(issues, src, open, m);
        }
    } else if let Some(opener) = opener(tag.as_str()) {
        match stack.pop() {
            Some(block) => {
                assert(blocks_view(stack@) =~= blocks.drop_last());
                assert(blocks.last() == (OpenBlock { tag: block.tag@, at: block.at as int }));
                assert(block.at < src@.len()) by {
                    assert(old(stack)@[old(stack)@.len() - 1] == block);
                }
                if !str_eq(block.tag.as_str(), opener) {
                    let (ol, oc) = line_col(src, block.at);
                    let mut m = "'{% ".to_string();
                    m.append(tag.as_str());
                    m.append(" %}' closes '{% ");
                    m.append(block.tag.as_str());
                    m.append(" %}' opened at ");
                    push_dec(&mut m, ol as u128);
                    m.append(":");
                    push_dec(&mut m, oc as u128);
                    push_error(issues, src, open, m);
                }
            },
            None => {
                let mut m = "'{% ".to_string();
                m.append(tag.as_str());
                m.append(" %}' without a matching '{% ");
                m.append(opener);
                m.append(" %}'");
                push_error(issues, src, open, m);
            },
        }
    } else if is_opener(tag.as_str()) {
        let inline = str_eq(tag.as_str(), "set") && has_char(src, open + 2, end - 2, '=');
        if !inline {
            stack.push(Block { tag, at: open });
            assert(blocks_view(stack@) =~= blocks.push(OpenBlock { tag: tag@, at: open as int }));
        }
    } else if str_eq(tag.as_str(), "") {
        proof {
            reveal_strlit("");
        }
        push_error(issues, src, open, "empty '{% %}' statement".to_string());
    } else if !is_inline(tag.as_str()) {
        proof {
            reveal_strlit("");
            assert(tag@.len() == 0 ==> tag@ =~= ""@);
        }
        let mut m = "unknown statement tag '".to_string();
        m.append(tag.as_str());
        m.append("'");
        push_warning(issues, src, open, m);
    } else {
        proof {
            reveal_strlit("");
            assert(tag@.len() == 0 ==> tag@ =~= ""@);
        }
    }
}

/// The position behind the statement that ends a raw block that starts at
/// `from`.
fn find_raw_end(src: &Vec<char>, from: usize) -> (r: Option<usize>)
    requires
        from <= src@.len(),
    ensures
        match r {
            Some(e) => raw_end(src@, from as int) == Some(e as int) && e <= src@.len(),
            None => raw_end(src@, from as int) is None,
        },
{
    proof {
        lemma_delimiters();
    }
    let open = chars_of("{%");
    let close = chars_of("%}");
    let n: usize = src.len();
    let mut j: usize = from;
    while j < n
        invariant
            from <= j <= n,
            n == src@.len(),
            open@ == "{%"@,
            close@ == "%}"@,
            "{%"@.len() == 2,
            "%}"@.len() == 2,
            raw_end(src@, from as int) == raw_end(src@, j as int),
        decreases n - j,
    {
        if starts_here(src, j, &open) {
            match scan_to_closer(src, j + 2, &close) {
                Some(e) => {
                    let tag = stmt_tag(src, j + 2, e - 2);
                    if str_eq(tag.as_str(), "endraw") {
                        return Some(e);
                    }
                },
                None => {},
            }
            // Anything else inside raw is literal text; step past the '{%' so
            // a later '{% endraw %}' is still found.
            j += 2;
        } else {
            j += 1;
        }
    }
    None
}

/// Take one look at position `i`; returns where to go on.
fn look_at(
    src: &Vec<char>,
    i: usize,
    stack: &mut Vec<Block>,
    issues: &mut Vec<Issue>,
) -> (r: Option<usize>)
    requires
        i < src@.len(),
        blocks_inside(old(stack)@, src@.len()),
    ensures
        blocks_inside(final(stack)@, src@.len()),
        ({
            let l = look(src@, i as int, blocks_view(old(stack)@));
            &&& issues_view(final(issues)@) == issues_view(old(issues)@) + l.found
            &&& blocks_view(final(stack)@) == l.stack
            &&& match r {
                Some(next) => l.next == Some(next as int) && i < next <= src@.len(),
                None => l.next is None,
            }
        }),
{
    proof {
        lemma_delimiters();
        lemma_look(src@, i as int, blocks_view(stack@));
    }
    let ghost before = issues_view(issues@);
    assert(before + Seq::<SpecIssue>::empty() =~= before);
    let n: usize = src.len();
    assert(i < n);
    let open_expr = chars_of("{{");
    let close_expr = chars_of("}}");
    let open_stmt = chars_of("{%");
    let close_stmt = chars_of("%}");
    let open_note = chars_of("{#");
    let close_note = chars_of("#}");
    if starts_here(src, i, &open_expr) {
        match scan_to_closer(src, i + 2, &close_expr) {
            Some(end) => {
                let inner = slice_of(src, i + 2, end - 2);
                if scan_to_closer(&inner, 0, &open_expr).is_some() || scan_to_closer(
                    &inner,
                    0,
                    &open_stmt,
                ).is_some() {
                    push_error(
                        issues,
                        src,
                        i,
                        "'{{' opened again inside an expression".to_string(),
                    );
                }
                Some(end)
            },
            None => {
                push_error(issues, src, i, "unclosed '{{' expression".to_string());
                None
            },
        }
    } else if starts_here(src, i, &open_stmt) {
        match scan_to_closer(src, i + 2, &close_stmt) {
            Some(end) => {
                let tag = stmt_tag(src, i + 2, end - 2);
                if str_eq(tag.as_str(), "raw") {
                    match find_raw_end(src, end) {
                        Some(e) => Some(e),
                        None => {
                            push_error(
                                issues,
                                src,
                                i,
                                "'{% raw %}' without '{% endraw %}'".to_string(),
                            );
                            None
                        },
                    }
                } else {
                    lint_statement(src, i, end, stack, issues);
                    Some(end)
                }
            },
            None => {
                push_error(issues, src, i, "unclosed '{%' statement".to_string());
                None
            },
        }
    } else if starts_here(src, i, &open_note) {
        match scan_to_closer(src, i + 2, &close_note) {
            Some(end) => Some(end),
            None => {
                push_error(issues, src, i, "unclosed '{#' comment".to_string());
                None
            },
        }
    } else if starts_here(src, i, &close_expr) || starts_here(src, i, &close_stmt) {
        let mut m = "stray '".to_string();
        let what = string_of(src, i, i + 2);
        m.append(what.as_str());
        m.append("' outside any expression");
        push_warning(issues, src, i, m);
        Some(i + 2)
    } else {
        Some(i + 1)
    }
}

/// Whether there is nothing but white space.
fn is_blank(src: &Vec<char>) -> (r: bool)
    ensures
        r == (trim_end(trim_start(src@)).len() == 0),
{
    let mut i: usize = 0;
    assert(src@.skip(0) =~= src@);
    while i < src.len()
        invariant
            i <= src@.len(),
            trim_start(src@) == trim_start(src@.skip(i as int)),
        decreases src@.len() - i,
    {
        if !is_white_char(src[i]) {
            proof {
                lemma_trim_end_keeps(src@.skip(i as int));
            }
            return false;
        }
        assert(src@.skip(i as int).drop_first() =~= src@.skip(i + 1));
        i += 1;
    }
    true
}

/// Trimming the end keeps what starts with something visible.
proof fn lemma_trim_end_keeps(s: Seq<char>)
    requires
        s.len() > 0,
        !is_white(s[0]),
    ensures
        trim_end(s).len() > 0,
    decreases s.len(),
{
    if is_white(s.last()) {
        lemma_trim_end_keeps(s.drop_last());
    }
}

/// Lint a chat template. Errors are structural problems that will break a
/// runtime's template engine; warnings are strong hints something is off.
pub fn lint(src: &str) -> (r: Vec<Issue>)
    ensures
        issues_view(r@) == findings(src@),
{
    let chars = chars_of(src);
    let mut issues: Vec<Issue> = Vec::new();
    assert(issues_view(issues@) =~= Seq::<SpecIssue>::empty());
    if is_blank(&chars) {
        issues.push(
            Issue {
                severity: Severity::Error,
                pos: None,
                message: "template is empty".to_string(),
            },
        );
        assert(issues_view(issues@) =~= findings(src@));
        return issues;
    }
    let mut stack: Vec<Block> = Vec::new();
    let mut i: usize = 0;
    let ghost whole = lint_from(chars@, 0, Seq::empty());
    assert(blocks_view(stack@) =~= Seq::<OpenBlock>::empty());
    assert(issues_view(issues@) + whole.0 =~= whole.0);
    while i < chars.len()
        invariant_except_break
            whole == (
                issues_view(issues@) + lint_from(chars@, i as int, blocks_view(stack@)).0,
                lint_from(chars@, i as int, blocks_view(stack@)).1,
            ),
        invariant
            i <= chars@.len(),
            blocks_inside(stack@, chars@.len()),
        ensures
            whole == (issues_view(issues@), blocks_view(stack@)),
        decreases chars@.len() - i,
    {
        let ghost before = issues_view(issues@);
        let ghost blocks = blocks_view(stack@);
        match look_at(&chars, i, &mut stack, &mut issues) {
            Some(next) => {
                proof {
                    let l = look(chars@, i as int, blocks);
                    let rest = lint_from(chars@, next as int, l.stack).0;
                    assert(before + (l.found + rest) =~= issues_view(issues@) + rest);
                }
                i = next;
            },
            None => {
                break;
            },
        }
        proof {
            if i == chars@.len() {
                assert(issues_view(issues@) + Seq::<SpecIssue>::empty() =~= issues_view(issues@));
            }
        }
    }
    let ghost found = issues_view(issues@);
    let ghost open = blocks_view(stack@);
    let mut j: usize = 0;
    assert(found + unclosed(chars@, open).take(0) =~= found);
    while j < stack.len()
        invariant
            j <= stack@.len(),
            blocks_inside(stack@, chars@.len()),
            open == blocks_view(stack@),
            issues_view(issues@) == found + unclosed(chars@, open).take(j as int),
        decreases stack@.len() - j,
    {
        let mut m = "unclosed '{% ".to_string();
        m.append(stack[j].tag.as_str());
        m.append(" %}'");
        assert(stack@[j as int].at < chars@.len());
        push_error(&mut issues, &chars, stack[j].at, m);
        j += 1;
        assert(issues_view(issues@) =~= found + unclosed(chars@, open).take(j as int));
    }
    assert(unclosed(chars@, open).take(j as int) =~= unclosed(chars@, open));
    let ghost closed = issues_view(issues@);
    let messages = chars_of("messages");
    if !contains_text(&chars, &messages) {
        issues.push(
            Issue {
                severity: Severity::Warning,
                pos: None,
                message: "template never references 'messages' — runtimes pass the chat there".to_string(),
            },
        );
    }
    let prompt = chars_of("add_generation_prompt");
    if !contains_text(&chars, &prompt) {
        issues.push(
            Issue {
                severity: Severity::Warning,
                pos: None,
                message: "template never checks 'add_generation_prompt'; bare generation prompts may be impossible".to_string(),
            },
        );
    }
    assert(issues_view(issues@) =~= closed + hints(chars@));
    issues
}

// ---------------------------------------------------------------------------
// Laws
// ---------------------------------------------------------------------------

/// A finding that names a position names one inside the text.
pub open spec fn points_into(s: Seq<char>, issue: SpecIssue) -> bool {
    issue.pos is Some ==> exists|i: int|
        0 <= i < s.len() && issue.pos == Some(#[trigger] position(s, i))
}

/// Every finding of a list names a position inside the text, or none.
pub open spec fn all_point_into(s: Seq<char>, issues: Seq<SpecIssue>) -> bool {
    forall|k: int| 0 <= k < issues.len() ==> points_into(s, #[trigger] issues[k])
}

/// Every open block was opened inside the text.
spec fn opened_inside(s: Seq<char>, stack: Seq<OpenBlock>) -> bool {
    forall|k: int| 0 <= k < stack.len() ==> 0 <= (#[trigger] stack[k]).at < s.len()
}

/// One look finds only what it is looking at.
proof fn lemma_look_points(s: Seq<char>, i: int, stack: Seq<OpenBlock>)
    requires
        0 <= i < s.len(),
        opened_inside(s, stack),
    ensures
        all_point_into(s, look(s, i, stack).found),
        opened_inside(s, look(s, i, stack).stack),
{
    let l = look(s, i, stack);
    assert forall|k: int| 0 <= k < l.found.len() implies points_into(s, #[trigger] l.found[k]) by {
        assert(l.found[k].pos == Some(position(s, i)));
    }
}

/// The findings from a position on point into the text.
proof fn lemma_lint_points(s: Seq<char>, i: int, stack: Seq<OpenBlock>)
    requires
        0 <= i,
        opened_inside(s, stack),
    ensures
        all_point_into(s, lint_from(s, i, stack).0),
        opened_inside(s, lint_from(s, i, stack).1),
    decreases s.len() - i,
{
    if i < s.len() {
        lemma_look(s, i, stack);
        lemma_look_points(s, i, stack);
        let l = look(s, i, stack);
        if let Some(next) = l.next {
            lemma_lint_points(s, next, l.stack);
            let rest = lint_from(s, next, l.stack).0;
            let all = l.found + rest;
            assert forall|k: int| 0 <= k < all.len() implies points_into(
                s,
                #[trigger] all[k],
            ) by {
                if k < l.found.len() {
                    assert(all[k] == l.found[k]);
                } else {
                    assert(all[k] == rest[k - l.found.len()]);
                }
            }
        }
    }
}

/// Every finding that names a line and a column names those of a character of
/// the template.
pub proof fn law_findings_point_into_the_template(s: Seq<char>)
    ensures
        all_point_into(s, findings(s)),
{
    lemma_lint_points(s, 0, Seq::empty());
    let (found, stack) = lint_from(s, 0, Seq::empty());
    let open = unclosed(s, stack);
    let all = findings(s);
    assert forall|k: int| 0 <= k < all.len() implies points_into(s, #[trigger] all[k]) by {
        if trim_end(trim_start(s)).len() > 0 {
            if k < found.len() {
                assert(all[k] == found[k]);
            } else if k < found.len() + open.len() {
                let j = k - found.len();
                assert(all[k] == open[j]);
                assert(0 <= stack[j].at < s.len());
                assert(all[k].pos == Some(position(s, stack[j].at)));
            } else {
                assert(all[k] == hints(s)[k - found.len() - open.len()]);
            }
        }
    }
}

/// Warnings only.
pub open spec fn harmless(issues: Seq<SpecIssue>) -> bool {
    forall|k: int| 0 <= k < issues.len() ==> (#[trigger] issues[k]).severity == Severity::Warning
}

/// Warnings are no errors.
pub proof fn lemma_harmless(issues: Seq<SpecIssue>)
    requires
        harmless(issues),
    ensures
        errors_among(issues) == 0,
    decreases issues.len(),
{
    if issues.len() > 0 {
        let init = issues.drop_last();
        assert forall|k: int| 0 <= k < init.len() implies (#[trigger] init[k]).severity
            == Severity::Warning by {
            assert(init[k] == issues[k]);
        }
        lemma_harmless(init);
        assert(issues[issues.len() - 1].severity == Severity::Warning);
    }
}

/// Where nothing opens, the linter finds no errors from a position on, and no
/// block stays open.
proof fn lemma_lint_without_openers(s: Seq<char>, i: int)
    requires
        0 <= i,
        !has_text(s, "{{"@),
        !has_text(s, "{%"@),
        !has_text(s, "{#"@),
    ensures
        harmless(lint_from(s, i, Seq::empty()).0),
        lint_from(s, i, Seq::empty()).1.len() == 0,
    decreases s.len() - i,
{
    if i < s.len() {
        let none = Seq::<OpenBlock>::empty();
        lemma_look(s, i, none);
        let l = look(s, i, none);
        assert(!starts_at(s, i, "{{"@) && !starts_at(s, i, "{%"@) && !starts_at(s, i, "{#"@));
        if let Some(next) = l.next {
            lemma_lint_without_openers(s, next);
            let rest = lint_from(s, next, none).0;
            let all = l.found + rest;
            assert forall|k: int| 0 <= k < all.len() implies (#[trigger] all[k]).severity
                == Severity::Warning by {
                if k >= l.found.len() {
                    assert(all[k] == rest[k - l.found.len()]);
                }
            }
        }
    }
}

/// Text that opens no expression, statement or comment has no errors, unless it
/// is blank.
pub proof fn law_text_without_openers_has_no_errors(s: Seq<char>)
    requires
        trim_end(trim_start(s)).len() > 0,
        !has_text(s, "{{"@),
        !has_text(s, "{%"@),
        !has_text(s, "{#"@),
    ensures
        errors_among(findings(s)) == 0,
{
    lemma_lint_without_openers(s, 0);
    let (found, stack) = lint_from(s, 0, Seq::empty());
    let all = findings(s);
    assert(unclosed(s, stack) =~= Seq::<SpecIssue>::empty());
    assert(harmless(hints(s)));
    assert forall|k: int| 0 <= k < all.len() implies (#[trigger] all[k]).severity
        == Severity::Warning by {
        if k < found.len() {
            assert(all[k] == found[k]);
        } else {
            assert(all[k] == hints(s)[k - found.len()]);
        }
    }
    lemma_harmless(all);
}

} // verus!
