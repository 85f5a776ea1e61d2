//! Templates seen as texts, expressions, statements and comments one after the
//! other: where the blocks nest, the linter finds no errors.

use crate::template::{
    after_quote, closer_end, errors_among, findings, harmless, hints, leading_word, lemma_harmless,
    lemma_leading_word_trim, lemma_look, lint_from, look, statement, tag_of, unclosed, OpenBlock,
    Severity, SpecIssue,
};
use crate::text::{is_alnum, is_white, starts_at, trim_end, trim_start};
use crate::wire::lemma_starts_split;
use vstd::prelude::*;
use vstd::string::*;

verus! {

// ---------------------------------------------------------------------------
// Pieces
// ---------------------------------------------------------------------------

/// A piece of a template; delimiters are not part of its text.
pub enum Part {
    Text(Seq<char>),
    Expression(Seq<char>),
    Statement(Seq<char>),
    Comment(Seq<char>),
}

/// A piece with its delimiters.
pub open spec fn part_text(part: Part) -> Seq<char> {
    match part {
        Part::Text(t) => t,
        Part::Expression(t) => "{{"@ + t + "}}"@,
        Part::Statement(t) => "{%"@ + t + "%}"@,
        Part::Comment(t) => "{#"@ + t + "#}"@,
    }
}

/// The template that pieces make up.
pub open spec fn assembled(parts: Seq<Part>) -> Seq<char>
    decreases parts.len(),
{
    if parts.len() == 0 {
        Seq::empty()
    } else {
        part_text(parts[0]) + assembled(parts.skip(1))
    }
}

/// The position behind the quote that ends a quoted string, from `i` inside it.
pub open spec fn quote_end(s: Seq<char>, i: int, quote: char) -> Option<int>
    decreases
            (if i < s.len() {
                s.len() - i
            } else {
                0
            }),
{
    if i >= s.len() {
        None
    } else if s[i] == quote {
        Some(i + 1)
    } else if s[i] == '\\' {
        quote_end(s, i + 2, quote)
    } else {
        quote_end(s, i + 1, quote)
    }
}

/// A character that delimiters are made of.
pub open spec fn delimits(c: char) -> bool {
    c == '{' || c == '}' || c == '%' || c == '#'
}

/// From `i` on there is nothing that could be part of a delimiter outside of
/// quoted strings, and every quoted string ends.
pub open spec fn quiet_from(s: Seq<char>, i: int) -> bool
    decreases s.len() - i,
{
    if i >= s.len() {
        true
    } else if s[i] == '\'' || s[i] == '"' {
        match quote_end(s, i + 1, s[i]) {
            Some(e) => i < e <= s.len() && quiet_from(s, e),
            None => false,
        }
    } else {
        !delimits(s[i]) && quiet_from(s, i + 1)
    }
}

/// The tags that begin a block.
pub open spec fn begins_block(tag: Seq<char>) -> bool {
    ||| tag == "for"@
    ||| tag == "if"@
    ||| tag == "macro"@
    ||| tag == "filter"@
    ||| tag == "block"@
    ||| tag == "generation"@
    ||| tag == "set"@
}

/// The block that a tag ends.
pub open spec fn ended_block(tag: Seq<char>) -> Option<Seq<char>> {
    if tag == "endfor"@ {
        Some("for"@)
    } else if tag == "endif"@ {
        Some("if"@)
    } else if tag == "endmacro"@ {
        Some("macro"@)
    } else if tag == "endfilter"@ {
        Some("filter"@)
    } else if tag == "endblock"@ {
        Some("block"@)
    } else if tag == "endgeneration"@ {
        Some("generation"@)
    } else if tag == "endset"@ {
        Some("set"@)
    } else {
        None
    }
}

/// The tags that stand on their own.
pub open spec fn stands_alone(tag: Seq<char>) -> bool {
    ||| tag == "include"@
    ||| tag == "import"@
    ||| tag == "from"@
    ||| tag == "do"@
    ||| tag == "break"@
    ||| tag == "continue"@
}

/// A tag that means something.
pub open spec fn known_tag(tag: Seq<char>) -> bool {
    begins_block(tag) || ended_block(tag) is Some || stands_alone(tag) || tag == "elif"@ || tag
        == "else"@
}

/// The tags of the blocks that are open behind a statement, where the ones in
/// `open` are before it; `None` where the statement is out of place, or empty.
/// An unknown tag opens and closes nothing.
pub open spec fn open_behind(body: Seq<char>, open: Seq<Seq<char>>) -> Option<Seq<Seq<char>>> {
    let tag = tag_of(body);
    if tag.len() == 0 || tag == "raw"@ {
        None
    } else if tag == "elif"@ {
        if open.len() > 0 && open.last() == "if"@ {
            Some(open)
        } else {
            None
        }
    } else if tag == "else"@ {
        if open.len() > 0 && (open.last() == "if"@ || open.last() == "for"@) {
            Some(open)
        } else {
            None
        }
    } else if let Some(block) = ended_block(tag) {
        if open.len() > 0 && open.last() == block {
            Some(open.drop_last())
        } else {
            None
        }
    } else if begins_block(tag) {
        if tag == "set"@ && body.contains('=') {
            Some(open)
        } else {
            Some(open.push(tag))
        }
    } else {
        Some(open)
    }
}

/// A piece holds no delimiter outside of quoted strings, and is no raw block.
pub open spec fn simple(part: Part) -> bool {
    match part {
        Part::Text(t) => forall|i: int| 0 <= i < t.len() ==> !delimits(#[trigger] t[i]),
        Part::Expression(t) => quiet_from(t, 0),
        Part::Comment(t) => quiet_from(t, 0),
        Part::Statement(t) => quiet_from(t, 0) && tag_of(t) != "raw"@,
    }
}

/// All pieces are simple.
pub open spec fn all_simple(parts: Seq<Part>) -> bool {
    forall|i: int| 0 <= i < parts.len() ==> simple(#[trigger] parts[i])
}

/// All statements have tags that mean something.
pub open spec fn all_known(parts: Seq<Part>) -> bool {
    forall|i: int|
        0 <= i < parts.len() ==> (#[trigger] parts[i] matches Part::Statement(t) ==> known_tag(
            tag_of(t),
        ))
}

/// From here on every block is closed where it should be, those in `open`
/// included, and no piece holds a delimiter outside of quoted strings.
pub open spec fn nests(parts: Seq<Part>, open: Seq<Seq<char>>) -> bool
    decreases parts.len(),
{
    if parts.len() == 0 {
        open.len() == 0
    } else {
        match parts[0] {
            Part::Text(t) => (forall|i: int| 0 <= i < t.len() ==> !delimits(#[trigger] t[i]))
                && nests(parts.skip(1), open),
            Part::Expression(t) => quiet_from(t, 0) && nests(parts.skip(1), open),
            Part::Comment(t) => quiet_from(t, 0) && nests(parts.skip(1), open),
            Part::Statement(t) => quiet_from(t, 0) && (open_behind(t, open) matches Some(next)
                && nests(parts.skip(1), next)),
        }
    }
}

// ---------------------------------------------------------------------------
// Scanning pieces
// ---------------------------------------------------------------------------

/// A quoted string inside a piece ends where the piece says it does.
pub proof fn lemma_quote_end(s: Seq<char>, at: int, t: Seq<char>, i: int, quote: char)
    requires
        starts_at(s, at, t),
        0 <= i,
        quote_end(t, i, quote) is Some,
    ensures
        quote_end(t, i, quote) matches Some(e) ==> i < e <= t.len() && after_quote(
            s,
            at + i,
            quote,
        ) == at + e,
    decreases t.len() - i,
{
    reveal_with_fuel(quote_end, 2);
    assert(s.subrange(at, at + t.len())[i] == t[i]);
    if t[i] != quote {
        if t[i] == '\\' {
            lemma_quote_end(s, at, t, i + 2, quote);
        } else {
            lemma_quote_end(s, at, t, i + 1, quote);
        }
    }
}

/// Two characters stand where they stand.
pub proof fn lemma_starts_pair(s: Seq<char>, i: int, p: Seq<char>)
    requires
        p.len() == 2,
        0 <= i,
    ensures
        starts_at(s, i, p) <==> i + 2 <= s.len() && s[i] == p[0] && s[i + 1] == p[1],
{
    if i + 2 <= s.len() {
        let t = s.subrange(i, i + 2);
        assert(t[0] == s[i] && t[1] == s[i + 1]);
        if s[i] == p[0] && s[i + 1] == p[1] {
            assert(t =~= p);
        }
    }
}

/// The closer behind a quiet piece is the first one.
pub proof fn lemma_closer_behind(s: Seq<char>, at: int, t: Seq<char>, i: int, closer: Seq<char>)
    requires
        starts_at(s, at, t + closer),
        0 <= i <= t.len(),
        quiet_from(t, i),
        closer.len() == 2,
        delimits(closer[0]),
    ensures
        closer_end(s, at + i, closer) == Some(at + t.len() + 2),
    decreases t.len() - i,
{
    lemma_starts_split(s, at, t, closer);
    lemma_starts_pair(s, at + i, closer);
    if i == t.len() {
        assert(s[at + i] == closer[0]);
    } else {
        assert(s.subrange(at, at + t.len())[i] == t[i]);
        if t[i] == '\'' || t[i] == '"' {
            lemma_quote_end(s, at, t, i + 1, t[i]);
            lemma_closer_behind(s, at, t, quote_end(t, i + 1, t[i])->Some_0, closer);
        } else {
            lemma_closer_behind(s, at, t, i + 1, closer);
        }
    }
}

/// A quiet piece holds no delimiter.
pub proof fn lemma_quiet(t: Seq<char>, i: int, delimiter: Seq<char>)
    requires
        0 <= i <= t.len(),
        quiet_from(t, i),
        delimiter.len() == 2,
        delimits(delimiter[0]),
    ensures
        closer_end(t, i, delimiter) is None,
    decreases t.len() - i,
{
    if i < t.len() {
        lemma_starts_pair(t, i, delimiter);
        if t[i] == '\'' || t[i] == '"' {
            assert(t.subrange(0, t.len() as int) =~= t);
            lemma_quote_end(t, 0, t, i + 1, t[i]);
            lemma_quiet(t, quote_end(t, i + 1, t[i])->Some_0, delimiter);
        } else {
            lemma_quiet(t, i + 1, delimiter);
        }
    }
}

/// The characters of the delimiters.
pub proof fn lemma_delimiter_chars()
    ensures
        "{{"@ == seq!['{', '{'],
        "}}"@ == seq!['}', '}'],
        "{%"@ == seq!['{', '%'],
        "%}"@ == seq!['%', '}'],
        "{#"@ == seq!['{', '#'],
        "#}"@ == seq!['#', '}'],
{
    reveal_strlit("{{");
    reveal_strlit("}}");
    reveal_strlit("{%");
    reveal_strlit("%}");
    reveal_strlit("{#");
    reveal_strlit("#}");
    assert("{{"@ =~= seq!['{', '{']);
    assert("}}"@ =~= seq!['}', '}']);
    assert("{%"@ =~= seq!['{', '%']);
    assert("%}"@ =~= seq!['%', '}']);
    assert("{#"@ =~= seq!['{', '#']);
    assert("#}"@ =~= seq!['#', '}']);
}

/// What stands at a position with delimiters around it.
pub proof fn lemma_enclosed(s: Seq<char>, i: int, opener: Seq<char>, t: Seq<char>, closer: Seq<char>)
    requires
        starts_at(s, i, opener + t + closer),
        0 <= i,
        opener.len() == 2,
        closer.len() == 2,
        delimits(closer[0]),
        quiet_from(t, 0),
    ensures
        starts_at(s, i, opener),
        closer_end(s, i + 2, closer) == Some(i + t.len() + 4),
        s.subrange(i + 2, i + t.len() + 2) == t,
{
    assert(opener + t + closer =~= opener + (t + closer));
    lemma_starts_split(s, i, opener, t + closer);
    lemma_starts_split(s, i + 2, t, closer);
    lemma_closer_behind(s, i + 2, t, 0, closer);
}

// ---------------------------------------------------------------------------
// Linting pieces
// ---------------------------------------------------------------------------

/// The tags of open blocks.
pub open spec fn tags_of(stack: Seq<OpenBlock>) -> Seq<Seq<char>> {
    Seq::new(stack.len(), |i: int| stack[i].tag)
}

/// A quiet expression is passed over.
pub proof fn lemma_expression(s: Seq<char>, i: int, t: Seq<char>, stack: Seq<OpenBlock>)
    requires
        starts_at(s, i, part_text(Part::Expression(t))),
        quiet_from(t, 0),
    ensures
        look(s, i, stack).found.len() == 0,
        look(s, i, stack).stack == stack,
        look(s, i, stack).next == Some(i + part_text(Part::Expression(t)).len()),
{
    lemma_delimiter_chars();
    lemma_enclosed(s, i, "{{"@, t, "}}"@);
    lemma_quiet(t, 0, "{{"@);
    lemma_quiet(t, 0, "{%"@);
}

/// A quiet comment is passed over.
pub proof fn lemma_comment(s: Seq<char>, i: int, t: Seq<char>, stack: Seq<OpenBlock>)
    requires
        starts_at(s, i, part_text(Part::Comment(t))),
        quiet_from(t, 0),
    ensures
        look(s, i, stack).found.len() == 0,
        look(s, i, stack).stack == stack,
        look(s, i, stack).next == Some(i + part_text(Part::Comment(t)).len()),
{
    lemma_delimiter_chars();
    lemma_enclosed(s, i, "{#"@, t, "#}"@);
    lemma_starts_pair(s, i, "{{"@);
    lemma_starts_pair(s, i, "{%"@);
    lemma_starts_pair(s, i, "{#"@);
}

/// A statement in its place opens and closes what it should.
pub proof fn lemma_statement(s: Seq<char>, i: int, t: Seq<char>, stack: Seq<OpenBlock>)
    requires
        starts_at(s, i, part_text(Part::Statement(t))),
        quiet_from(t, 0),
        open_behind(t, tags_of(stack)) is Some,
    ensures
        harmless(look(s, i, stack).found),
        look(s, i, stack).found.len() == 0 <==> known_tag(tag_of(t)),
        open_behind(t, tags_of(stack)) == Some(tags_of(look(s, i, stack).stack)),
        look(s, i, stack).next == Some(i + part_text(Part::Statement(t)).len()),
{
    lemma_delimiter_chars();
    lemma_enclosed(s, i, "{%"@, t, "%}"@);
    lemma_starts_pair(s, i, "{{"@);
    lemma_starts_pair(s, i, "{%"@);
    let end = i + t.len() + 4;
    let after = statement(s, i, end, stack).1;
    if stack.len() > 0 {
        assert(tags_of(stack).last() == stack.last().tag);
        assert(tags_of(stack.drop_last()) =~= tags_of(stack).drop_last());
    }
    let pushed = OpenBlock { tag: tag_of(t), at: i };
    assert(tags_of(stack.push(pushed)) =~= tags_of(stack).push(tag_of(t)));
    assert(look(s, i, stack).stack == after);
}

/// No tag that opens, divides or closes a block is empty.
pub proof fn lemma_no_empty_tag(tag: Seq<char>)
    requires
        tag == "elif"@ || tag == "else"@ || ended_block(tag) is Some || begins_block(tag),
    ensures
        tag.len() > 0,
{
    reveal_strlit("elif");
    reveal_strlit("else");
    reveal_strlit("endfor");
    reveal_strlit("endif");
    reveal_strlit("endmacro");
    reveal_strlit("endfilter");
    reveal_strlit("endblock");
    reveal_strlit("endgeneration");
    reveal_strlit("endset");
    reveal_strlit("for");
    reveal_strlit("if");
    reveal_strlit("macro");
    reveal_strlit("filter");
    reveal_strlit("block");
    reveal_strlit("generation");
    reveal_strlit("set");
}

/// A statement out of its place, or an empty one, is an error.
pub proof fn lemma_misplaced(s: Seq<char>, i: int, t: Seq<char>, stack: Seq<OpenBlock>)
    requires
        starts_at(s, i, part_text(Part::Statement(t))),
        quiet_from(t, 0),
        tag_of(t) != "raw"@,
        open_behind(t, tags_of(stack)) is None,
    ensures
        errors_among(look(s, i, stack).found) == 1,
        look(s, i, stack).next == Some(i + part_text(Part::Statement(t)).len()),
{
    lemma_delimiter_chars();
    lemma_enclosed(s, i, "{%"@, t, "%}"@);
    lemma_starts_pair(s, i, "{{"@);
    lemma_starts_pair(s, i, "{%"@);
    if stack.len() > 0 {
        assert(tags_of(stack).last() == stack.last().tag);
    }
    let tag = tag_of(t);
    if tag == "elif"@ || tag == "else"@ || ended_block(tag) is Some || begins_block(tag) {
        lemma_no_empty_tag(tag);
    }
    let found = look(s, i, stack).found;
    assert(found == statement(s, i, i + t.len() + 4, stack).0);
    assert(found.len() == 1 && found[0].severity == Severity::Error);
    reveal_with_fuel(errors_among, 2);
}

/// Text without delimiters is passed over.
pub proof fn lemma_text(s: Seq<char>, i: int, t: Seq<char>, stack: Seq<OpenBlock>)
    requires
        starts_at(s, i, t),
        forall|k: int| 0 <= k < t.len() ==> !delimits(#[trigger] t[k]),
    ensures
        lint_from(s, i, stack) == lint_from(s, i + t.len(), stack),
    decreases t.len(),
{
    if t.len() > 0 {
        lemma_delimiter_chars();
        assert(s.subrange(i, i + t.len())[0] == t[0]);
        lemma_starts_pair(s, i, "{{"@);
        lemma_starts_pair(s, i, "{%"@);
        lemma_starts_pair(s, i, "{#"@);
        lemma_starts_pair(s, i, "}}"@);
        lemma_starts_pair(s, i, "%}"@);
        let rest = t.skip(1);
        assert(seq![t[0]] + rest =~= t);
        lemma_starts_split(s, i, seq![t[0]], rest);
        assert forall|k: int| 0 <= k < rest.len() implies !delimits(#[trigger] rest[k]) by {
            assert(rest[k] == t[k + 1]);
        }
        lemma_text(s, i + 1, rest, stack);
        let after = lint_from(s, i + 1, stack);
        assert(Seq::<SpecIssue>::empty() + after.0 =~= after.0);
    }
}

/// The errors of two lists are those of both.
pub proof fn law_errors_add_up(a: Seq<SpecIssue>, b: Seq<SpecIssue>)
    ensures
        errors_among(a + b) == errors_among(a) + errors_among(b),
    decreases b.len(),
{
    if b.len() == 0 {
        assert(a + b =~= a);
    } else {
        assert((a + b).drop_last() =~= a + b.drop_last());
        law_errors_add_up(a, b.drop_last());
    }
}

/// There are no errors exactly where every finding is a warning.
pub proof fn law_no_errors_means_warnings_only(issues: Seq<SpecIssue>)
    ensures
        errors_among(issues) == 0 <==> forall|k: int|
            0 <= k < issues.len() ==> (#[trigger] issues[k]).severity == Severity::Warning,
    decreases issues.len(),
{
    if issues.len() > 0 {
        let init = issues.drop_last();
        law_no_errors_means_warnings_only(init);
        assert(issues.last() == issues[issues.len() - 1]);
        if errors_among(issues) == 0 {
            assert forall|k: int| 0 <= k < issues.len() implies (#[trigger] issues[k]).severity
                == Severity::Warning by {
                if k < init.len() {
                    assert(init[k] == issues[k]);
                }
            }
        } else if errors_among(init) > 0 {
            let k = choose|k: int|
                0 <= k < init.len() && (#[trigger] init[k]).severity != Severity::Warning;
            assert(issues[k] == init[k]);
        }
    }
}

/// Every block that is never closed is an error.
pub proof fn lemma_unclosed_errors(s: Seq<char>, stack: Seq<OpenBlock>)
    ensures
        errors_among(unclosed(s, stack)) == stack.len(),
    decreases stack.len(),
{
    if stack.len() > 0 {
        let init = stack.drop_last();
        lemma_unclosed_errors(s, init);
        assert(unclosed(s, stack).drop_last() =~= unclosed(s, init));
    }
}

/// Simple pieces give no error and leave no block open exactly when they nest;
/// nothing at all is found where their tags are known besides.
proof fn lemma_nested(s: Seq<char>, i: int, parts: Seq<Part>, stack: Seq<OpenBlock>)
    requires
        starts_at(s, i, assembled(parts)),
        i + assembled(parts).len() == s.len(),
        all_simple(parts),
    ensures
        nests(parts, tags_of(stack)) <==> errors_among(lint_from(s, i, stack).0) == 0 && lint_from(
            s,
            i,
            stack,
        ).1.len() == 0,
        nests(parts, tags_of(stack)) && all_known(parts) ==> lint_from(s, i, stack).0.len() == 0,
        nests(parts, tags_of(stack)) && !all_known(parts) ==> lint_from(s, i, stack).0.len() > 0,
    decreases parts.len(),
{
    if parts.len() == 0 {
        assert(stack.len() == tags_of(stack).len());
    } else {
        let rest = parts.skip(1);
        let part = parts[0];
        let text = part_text(part);
        lemma_starts_split(s, i, text, assembled(rest));
        lemma_delimiter_chars();
        assert(simple(part));
        assert forall|k: int| 0 <= k < rest.len() implies simple(#[trigger] rest[k]) by {
            assert(rest[k] == parts[k + 1]);
        }
        lemma_all_known(parts);
        let l = look(s, i, stack);
        match part {
            Part::Text(t) => {
                lemma_text(s, i, t, stack);
                lemma_nested(s, i + t.len(), rest, stack);
            },
            Part::Expression(t) => {
                lemma_expression(s, i, t, stack);
                lemma_nested(s, i + text.len(), rest, stack);
                let after = lint_from(s, i + text.len(), stack);
                assert(l.found + after.0 =~= after.0);
            },
            Part::Comment(t) => {
                lemma_comment(s, i, t, stack);
                lemma_nested(s, i + text.len(), rest, stack);
                let after = lint_from(s, i + text.len(), stack);
                assert(l.found + after.0 =~= after.0);
            },
            Part::Statement(t) => {
                if open_behind(t, tags_of(stack)) is Some {
                    lemma_statement(s, i, t, stack);
                    lemma_nested(s, i + text.len(), rest, l.stack);
                    lemma_harmless(l.found);
                } else {
                    lemma_misplaced(s, i, t, stack);
                }
                law_errors_add_up(l.found, lint_from(s, l.next->Some_0, l.stack).0);
            },
        }
    }
}

/// All tags are known where the first is and the others are.
proof fn lemma_all_known(parts: Seq<Part>)
    requires
        parts.len() > 0,
    ensures
        all_known(parts) <==> (parts[0] matches Part::Statement(t) ==> known_tag(tag_of(t)))
            && all_known(parts.skip(1)),
{
    let rest = parts.skip(1);
    if all_known(parts) {
        assert forall|k: int| 0 <= k < rest.len() implies (#[trigger] rest[k] matches Part::Statement(
            t,
        ) ==> known_tag(tag_of(t))) by {
            assert(rest[k] == parts[k + 1]);
        }
    }
    if all_known(rest) && (parts[0] matches Part::Statement(t) ==> known_tag(tag_of(t))) {
        assert forall|k: int| 0 <= k < parts.len() implies (
        #[trigger] parts[k] matches Part::Statement(t) ==> known_tag(tag_of(t))) by {
            if k > 0 {
                assert(parts[k] == rest[k - 1]);
            }
        }
    }
}

/// A template of simple pieces, unless it is blank, has no errors exactly when
/// its blocks nest: a block that stays open, or a statement out of its place, is
/// an error, and nothing else is.
pub proof fn law_errors_exactly_where_blocks_do_not_nest(parts: Seq<Part>)
    requires
        all_simple(parts),
        trim_end(trim_start(assembled(parts))).len() > 0,
    ensures
        errors_among(findings(assembled(parts))) == 0 <==> nests(parts, Seq::empty()),
{
    let s = assembled(parts);
    let none = Seq::<OpenBlock>::empty();
    assert(tags_of(none) =~= Seq::empty());
    assert(s.subrange(0, s.len() as int) =~= s);
    lemma_nested(s, 0, parts, none);
    let (found, stack) = lint_from(s, 0, none);
    lemma_unclosed_errors(s, stack);
    assert(harmless(hints(s)));
    lemma_harmless(hints(s));
    law_errors_add_up(found, unclosed(s, stack));
    law_errors_add_up(found + unclosed(s, stack), hints(s));
}

/// Pieces that nest are simple.
proof fn lemma_nesting_is_simple(parts: Seq<Part>, open: Seq<Seq<char>>)
    requires
        nests(parts, open),
    ensures
        all_simple(parts),
    decreases parts.len(),
{
    if parts.len() > 0 {
        let rest = parts.skip(1);
        match parts[0] {
            Part::Statement(t) => {
                lemma_nesting_is_simple(rest, open_behind(t, open)->Some_0);
            },
            _ => {
                lemma_nesting_is_simple(rest, open);
            },
        }
        assert forall|k: int| 0 <= k < parts.len() implies simple(#[trigger] parts[k]) by {
            if k > 0 {
                assert(parts[k] == rest[k - 1]);
            }
        }
    }
}

/// A template whose pieces nest has no errors, unless it is blank.
pub proof fn law_nested_templates_have_no_errors(parts: Seq<Part>)
    requires
        nests(parts, Seq::empty()),
        trim_end(trim_start(assembled(parts))).len() > 0,
    ensures
        errors_among(findings(assembled(parts))) == 0,
{
    lemma_nesting_is_simple(parts, Seq::empty());
    law_errors_exactly_where_blocks_do_not_nest(parts);
}

/// A template whose pieces nest is found fault with, at some place in it, exactly
/// where a tag is unknown.
pub proof fn law_unknown_tags_are_pointed_out(parts: Seq<Part>)
    requires
        nests(parts, Seq::empty()),
        trim_end(trim_start(assembled(parts))).len() > 0,
    ensures
        all_known(parts) <==> forall|k: int|
            0 <= k < findings(assembled(parts)).len() ==> (#[trigger] findings(
                assembled(parts),
            )[k]).pos is None,
{
    let s = assembled(parts);
    let none = Seq::<OpenBlock>::empty();
    let all = findings(s);
    lemma_nesting_is_simple(parts, Seq::empty());
    assert(tags_of(none) =~= Seq::empty());
    assert(s.subrange(0, s.len() as int) =~= s);
    lemma_nested(s, 0, parts, none);
    let (found, stack) = lint_from(s, 0, none);
    assert(all =~= found + hints(s));
    if all_known(parts) {
        assert(all =~= hints(s));
    } else {
        lemma_found_somewhere(s, 0, none);
        assert(all[0] == found[0]);
    }
}

/// What is found while going through a template is found at some place.
pub proof fn lemma_found_somewhere(s: Seq<char>, i: int, stack: Seq<OpenBlock>)
    requires
        0 <= i,
    ensures
        forall|k: int|
            0 <= k < lint_from(s, i, stack).0.len() ==> (#[trigger] lint_from(
                s,
                i,
                stack,
            ).0[k]).pos is Some,
    decreases s.len() - i,
{
    if i < s.len() {
        lemma_look(s, i, stack);
        let l = look(s, i, stack);
        if let Some(next) = l.next {
            lemma_found_somewhere(s, next, l.stack);
            let rest = lint_from(s, next, l.stack).0;
            let all = l.found + rest;
            assert forall|k: int| 0 <= k < all.len() implies (#[trigger] all[k]).pos is Some by {
                if k >= l.found.len() {
                    assert(all[k] == rest[k - l.found.len()]);
                }
            }
        }
    }
}

// ---------------------------------------------------------------------------
// Tags
// ---------------------------------------------------------------------------

/// A text that starts with a word, and goes on with a space, has that word as
/// its leading word.
proof fn lemma_leading_word(s: Seq<char>, word: Seq<char>)
    requires
        starts_at(s, 0, word),
        word.len() < s.len(),
        s[word.len() as int] == ' ',
        forall|k: int| 0 <= k < word.len() ==> is_alnum(#[trigger] word[k]),
    ensures
        leading_word(s) == word,
    decreases word.len(),
{
    if word.len() == 0 {
        assert(leading_word(s) =~= word);
    } else {
        let rest = word.skip(1);
        let t = s.drop_first();
        assert(s.subrange(0, word.len() as int)[0] == word[0]);
        assert(t.subrange(0, rest.len() as int) =~= s.subrange(0, word.len() as int).skip(1));
        assert forall|k: int| 0 <= k < rest.len() implies is_alnum(#[trigger] rest[k]) by {
            assert(rest[k] == word[k + 1]);
        }
        lemma_leading_word(t, rest);
        assert(seq![word[0]] + rest =~= word);
    }
}

/// The tag of a statement that starts with a space, a word and a space.
pub proof fn lemma_tag(body: Seq<char>, word: Seq<char>)
    requires
        word.len() > 0,
        word.len() + 1 < body.len(),
        body[0] == ' ',
        starts_at(body, 1, word),
        body[word.len() as int + 1] == ' ',
        forall|k: int| 0 <= k < word.len() ==> is_alnum(#[trigger] word[k]),
    ensures
        tag_of(body) == word,
{
    let t = body.drop_first();
    assert(body.subrange(1, 1 + word.len() as int)[0] == word[0]);
    assert(t.subrange(0, word.len() as int) =~= body.subrange(1, 1 + word.len() as int));
    assert(is_alnum(word[0]) && !is_white(word[0]));
    reveal_with_fuel(trim_start, 2);
    assert(trim_start(body) == t);
    lemma_leading_word_trim(t);
    lemma_leading_word(t, word);
}

} // verus!
