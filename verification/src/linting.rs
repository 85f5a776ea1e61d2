//! What the linter says of templates: what is an error, what is a warning, and
//! where.

use crate::nesting::{
    all_simple, assembled, delimits, law_errors_add_up, lemma_closer_behind, lemma_comment,
    lemma_delimiter_chars, lemma_expression, lemma_found_somewhere, lemma_misplaced,
    lemma_quote_end, lemma_starts_pair, lemma_statement, lemma_text, open_behind, part_text,
    quiet_from, quote_end, simple, tags_of, Part,
};
use crate::template::{
    closer_end, end_position, errors_among, findings, hints, leading_word, lemma_leading_word_trim,
    lint_from, look, opener_outside_quotes, tag_of, unclosed, without_marks, OpenBlock, Severity,
};
use crate::text::{has_text, is_white, starts_at, trim_end, trim_start};
use crate::wire::lemma_starts_split;
use vstd::prelude::*;
use vstd::string::*;

verus! {

// ---------------------------------------------------------------------------
// Tags
// ---------------------------------------------------------------------------

/// A letter, a digit or an underscore.
pub open spec fn is_word_char(c: char) -> bool {
    'a' <= c <= 'z' || 'A' <= c <= 'Z' || '0' <= c <= '9' || c == '_'
}

/// Only whitespace-control marks.
pub open spec fn only_marks(s: Seq<char>) -> bool {
    forall|i: int| 0 <= i < s.len() ==> #[trigger] s[i] == '-' || s[i] == '+'
}

/// Only blanks, tabs and line ends.
pub open spec fn only_blanks(s: Seq<char>) -> bool {
    forall|i: int|
        0 <= i < s.len() ==> #[trigger] s[i] == ' ' || s[i] == '\t' || s[i] == '\n' || s[i] == '\r'
}

/// Only letters, digits and underscores.
pub open spec fn only_word_chars(s: Seq<char>) -> bool {
    forall|i: int| 0 <= i < s.len() ==> is_word_char(#[trigger] s[i])
}

/// Marks are taken off.
proof fn lemma_marks_off(marks: Seq<char>, s: Seq<char>)
    requires
        only_marks(marks),
        s.len() == 0 || (s[0] != '-' && s[0] != '+'),
    ensures
        without_marks(marks + s) == s,
    decreases marks.len(),
{
    let all = marks + s;
    if marks.len() == 0 {
        assert(all =~= s);
    } else {
        let rest = marks.drop_first();
        assert forall|i: int| 0 <= i < rest.len() implies #[trigger] rest[i] == '-' || rest[i]
            == '+' by {
            assert(rest[i] == marks[i + 1]);
        }
        lemma_marks_off(rest, s);
        assert(all[0] == marks[0]);
        assert(all.drop_first() =~= rest + s);
    }
}

/// Blanks are taken off.
proof fn lemma_blanks_off(blanks: Seq<char>, s: Seq<char>)
    requires
        only_blanks(blanks),
        s.len() == 0 || !is_white(s[0]),
    ensures
        trim_start(blanks + s) == s,
    decreases blanks.len(),
{
    let all = blanks + s;
    if blanks.len() == 0 {
        assert(all =~= s);
    } else {
        let rest = blanks.drop_first();
        assert forall|i: int| 0 <= i < rest.len() implies #[trigger] rest[i] == ' ' || rest[i]
            == '\t' || rest[i] == '\n' || rest[i] == '\r' by {
            assert(rest[i] == blanks[i + 1]);
        }
        lemma_blanks_off(rest, s);
        assert(all[0] == blanks[0]);
        assert(all.drop_first() =~= rest + s);
    }
}

/// A word in front is the leading word.
proof fn lemma_word_in_front(word: Seq<char>, rest: Seq<char>)
    requires
        only_word_chars(word),
        rest.len() == 0 || !is_word_char(rest[0]),
    ensures
        leading_word(word + rest) == word,
    decreases word.len(),
{
    let all = word + rest;
    if word.len() == 0 {
        assert(all =~= rest);
        assert(leading_word(all) =~= word);
    } else {
        let tail = word.drop_first();
        assert forall|i: int| 0 <= i < tail.len() implies is_word_char(#[trigger] tail[i]) by {
            assert(tail[i] == word[i + 1]);
        }
        lemma_word_in_front(tail, rest);
        assert(is_word_char(word[0]));
        assert(all[0] == word[0]);
        assert(all.drop_first() =~= tail + rest);
        assert(seq![word[0]] + tail =~= word);
    }
}

/// The tag of a statement is its first word, behind whitespace-control marks and
/// blanks, up to the first character that is no letter, digit or underscore.
pub proof fn law_tag_is_the_first_word(
    marks: Seq<char>,
    blanks: Seq<char>,
    word: Seq<char>,
    rest: Seq<char>,
)
    requires
        only_marks(marks),
        only_blanks(blanks),
        only_word_chars(word),
        word.len() > 0,
        rest.len() == 0 || !is_word_char(rest[0]),
    ensures
        tag_of(marks + blanks + word + rest) == word,
{
    let inner = word + rest;
    assert(is_word_char(word[0]));
    assert(inner[0] == word[0]);
    assert(marks + blanks + word + rest =~= marks + (blanks + inner));
    if blanks.len() > 0 {
        assert((blanks + inner)[0] == blanks[0]);
    } else {
        assert((blanks + inner)[0] == inner[0]);
    }
    lemma_marks_off(marks, blanks + inner);
    lemma_blanks_off(blanks, inner);
    lemma_leading_word_trim(inner);
    lemma_word_in_front(word, rest);
}

// ---------------------------------------------------------------------------
// Blank templates, and names that are missing
// ---------------------------------------------------------------------------

/// A text with a character that is not white space is not blank.
pub proof fn lemma_not_blank(s: Seq<char>, k: int)
    requires
        0 <= k < s.len(),
        !is_white(s[k]),
    ensures
        trim_end(trim_start(s)).len() > 0,
    decreases s.len(),
{
    if is_white(s[0]) {
        assert(s.drop_first()[k - 1] == s[k]);
        lemma_not_blank(s.drop_first(), k - 1);
    } else {
        lemma_end_kept(s);
    }
}

/// What is at the start stays when the end is trimmed.
proof fn lemma_end_kept(s: Seq<char>)
    requires
        s.len() > 0,
        !is_white(s[0]),
    ensures
        trim_end(s).len() > 0,
    decreases s.len(),
{
    if is_white(s.last()) {
        assert(s.drop_last()[0] == s[0]);
        lemma_end_kept(s.drop_last());
    }
}

/// Only white space is nothing after trimming.
proof fn lemma_all_white(s: Seq<char>)
    requires
        forall|i: int| 0 <= i < s.len() ==> is_white(#[trigger] s[i]),
    ensures
        trim_start(s).len() == 0,
    decreases s.len(),
{
    if s.len() > 0 {
        assert(is_white(s[0]));
        let t = s.drop_first();
        assert forall|i: int| 0 <= i < t.len() implies is_white(#[trigger] t[i]) by {
            assert(t[i] == s[i + 1]);
        }
        lemma_all_white(t);
    }
}

/// A template of white space alone is one error.
pub proof fn law_blank_template_is_an_error(s: Seq<char>)
    requires
        forall|i: int| 0 <= i < s.len() ==> is_white(#[trigger] s[i]),
    ensures
        findings(s).len() == 1,
        errors_among(findings(s)) == 1,
{
    lemma_all_white(s);
    reveal_with_fuel(errors_among, 2);
}

/// A template that is not blank is warned about, as a whole, exactly where it
/// never mentions `messages` or never mentions `add_generation_prompt`; what is
/// said of it as a whole is never an error.
pub proof fn law_missing_names_are_warned_about(s: Seq<char>, k: int)
    requires
        0 <= k < s.len(),
        !is_white(s[k]),
    ensures
        has_text(s, "messages"@) && has_text(s, "add_generation_prompt"@) <==> forall|j: int|
            0 <= j < findings(s).len() ==> (#[trigger] findings(s)[j]).pos is Some,
        forall|j: int|
            0 <= j < findings(s).len() && (#[trigger] findings(s)[j]).pos is None ==> findings(
                s,
            )[j].severity == Severity::Warning,
{
    lemma_not_blank(s, k);
    let none = Seq::<OpenBlock>::empty();
    let (found, stack) = lint_from(s, 0, none);
    let open = unclosed(s, stack);
    let n = found.len() + open.len();
    let all = findings(s);
    lemma_found_somewhere(s, 0, none);
    assert forall|j: int| 0 <= j < all.len() implies ((#[trigger] all[j]).pos is Some <==> j < n)
        && (j >= n ==> all[j].severity == Severity::Warning) by {
        if j < found.len() {
            assert(all[j] == found[j]);
        } else if j < n {
            assert(all[j] == open[j - found.len()]);
        } else {
            assert(all[j] == hints(s)[j - n]);
        }
    }
    if hints(s).len() > 0 {
        assert(all[n as int].pos is None);
    }
}

// ---------------------------------------------------------------------------
// Places
// ---------------------------------------------------------------------------

/// Lines and columns count from one; a line break starts a new line, and every
/// other character is one column.
pub proof fn law_lines_and_columns(before: Seq<char>, line: Seq<char>)
    requires
        forall|i: int| 0 <= i < line.len() ==> #[trigger] line[i] != '\n',
    ensures
        end_position(line) == (1nat, line.len() + 1),
        end_position(before + seq!['\n'] + line) == (end_position(before).0 + 1, line.len() + 1),
    decreases line.len(),
{
    let all = before + seq!['\n'] + line;
    if line.len() == 0 {
        assert(all.drop_last() =~= before);
    } else {
        let init = line.drop_last();
        assert forall|i: int| 0 <= i < init.len() implies #[trigger] init[i] != '\n' by {
            assert(init[i] == line[i]);
        }
        law_lines_and_columns(before, init);
        assert(line[line.len() - 1] != '\n');
        assert(all.drop_last() =~= before + seq!['\n'] + init);
        assert(all.last() == line.last());
    }
}

// ---------------------------------------------------------------------------
// Behind simple pieces
// ---------------------------------------------------------------------------

/// What is an error behind simple pieces, whatever is open there, is an error of
/// the whole.
proof fn lemma_error_behind(s: Seq<char>, i: int, parts: Seq<Part>, stack: Seq<OpenBlock>)
    requires
        starts_at(s, i, assembled(parts)),
        all_simple(parts),
        forall|st: Seq<OpenBlock>|
            errors_among((#[trigger] lint_from(s, i + assembled(parts).len(), st)).0) > 0,
    ensures
        errors_among(lint_from(s, i, stack).0) > 0,
    decreases parts.len(),
{
    if parts.len() > 0 {
        let rest = parts.skip(1);
        let part = parts[0];
        let text = part_text(part);
        lemma_starts_split(s, i, text, assembled(rest));
        lemma_delimiter_chars();
        assert(simple(part));
        assert forall|k: int| 0 <= k < rest.len() implies simple(#[trigger] rest[k]) by {
            assert(rest[k] == parts[k + 1]);
        }
        let next = i + text.len();
        assert(next + assembled(rest).len() == i + assembled(parts).len());
        let l = look(s, i, stack);
        match part {
            Part::Text(t) => {
                lemma_text(s, i, t, stack);
                lemma_error_behind(s, next, rest, stack);
            },
            Part::Expression(t) => {
                lemma_expression(s, i, t, stack);
                lemma_error_behind(s, next, rest, l.stack);
                law_errors_add_up(l.found, lint_from(s, next, l.stack).0);
            },
            Part::Comment(t) => {
                lemma_comment(s, i, t, stack);
                lemma_error_behind(s, next, rest, l.stack);
                law_errors_add_up(l.found, lint_from(s, next, l.stack).0);
            },
            Part::Statement(t) => {
                if open_behind(t, tags_of(stack)) is Some {
                    lemma_statement(s, i, t, stack);
                } else {
                    lemma_misplaced(s, i, t, stack);
                }
                lemma_error_behind(s, next, rest, l.stack);
                law_errors_add_up(l.found, lint_from(s, next, l.stack).0);
            },
        }
    }
}

/// Errors while going through a template are errors of the template.
proof fn lemma_errors_of_the_whole(s: Seq<char>, k: int)
    requires
        0 <= k < s.len(),
        !is_white(s[k]),
        errors_among(lint_from(s, 0, Seq::empty()).0) > 0,
    ensures
        errors_among(findings(s)) > 0,
{
    lemma_not_blank(s, k);
    let (found, stack) = lint_from(s, 0, Seq::empty());
    law_errors_add_up(found, unclosed(s, stack));
    law_errors_add_up(found + unclosed(s, stack), hints(s));
}

/// A delimiter that never comes is not found.
pub proof fn lemma_no_closer(s: Seq<char>, i: int, closer: Seq<char>)
    requires
        forall|k: int| i <= k ==> !#[trigger] starts_at(s, k, closer),
        0 <= i,
    ensures
        closer_end(s, i, closer) is None,
    decreases s.len() - i,
{
    if i < s.len() {
        if s[i] == '\'' || s[i] == '"' {
            crate::template::lemma_after_quote(s, i + 1, s[i]);
            lemma_no_closer(s, crate::template::after_quote(s, i + 1, s[i]), closer);
        } else {
            lemma_no_closer(s, i + 1, closer);
        }
    }
}

/// The delimiter that closes what another one opens.
pub open spec fn closer_for(opener: Seq<char>) -> Option<Seq<char>> {
    if opener == "{{"@ {
        Some("}}"@)
    } else if opener == "{%"@ {
        Some("%}"@)
    } else if opener == "{#"@ {
        Some("#}"@)
    } else {
        None
    }
}

/// An expression, a statement or a comment that is opened and never closed is an
/// error, behind whatever simple pieces.
pub proof fn law_unclosed_delimiter_is_an_error(
    parts: Seq<Part>,
    opener: Seq<char>,
    tail: Seq<char>,
)
    requires
        all_simple(parts),
        closer_for(opener) matches Some(closer) && !has_text(tail, closer),
    ensures
        errors_among(findings(assembled(parts) + opener + tail)) > 0,
{
    let a = assembled(parts);
    let s = a + opener + tail;
    let closer = closer_for(opener)->Some_0;
    let i = a.len() as int;
    lemma_delimiter_chars();
    assert(s.subrange(0, i) =~= a);
    assert(s.subrange(i, i + 2) =~= opener);
    lemma_starts_pair(s, i, "{{"@);
    lemma_starts_pair(s, i, "{%"@);
    lemma_starts_pair(s, i, "{#"@);
    assert(s[i] == '{');
    assert forall|k: int| i + 2 <= k implies !#[trigger] starts_at(s, k, closer) by {
        if starts_at(s, k, closer) {
            let j = k - i - 2;
            assert(tail.subrange(j, j + closer.len()) =~= s.subrange(k, k + closer.len()));
            assert(starts_at(tail, j, closer));
        }
    }
    lemma_no_closer(s, i + 2, closer);
    assert forall|st: Seq<OpenBlock>| errors_among((#[trigger] lint_from(s, i, st)).0) > 0 by {
        let found = look(s, i, st).found;
        assert(found.len() == 1 && found[0].severity == Severity::Error);
        reveal_with_fuel(errors_among, 2);
        assert(lint_from(s, i, st).0 == found);
    }
    lemma_error_behind(s, 0, parts, Seq::empty());
    lemma_errors_of_the_whole(s, i);
}

/// Scanning passes over a quiet piece.
proof fn lemma_scanned_over(s: Seq<char>, at: int, t: Seq<char>, i: int, closer: Seq<char>)
    requires
        starts_at(s, at, t),
        0 <= i <= t.len(),
        quiet_from(t, i),
        closer.len() == 2,
        delimits(closer[0]),
    ensures
        closer_end(s, at + i, closer) == closer_end(s, at + t.len(), closer),
    decreases t.len() - i,
{
    if i < t.len() {
        lemma_starts_pair(s, at + i, closer);
        assert(s.subrange(at, at + t.len())[i] == t[i]);
        if t[i] == '\'' || t[i] == '"' {
            lemma_quote_end(s, at, t, i + 1, t[i]);
            lemma_scanned_over(s, at, t, quote_end(t, i + 1, t[i])->Some_0, closer);
        } else {
            lemma_scanned_over(s, at, t, i + 1, closer);
        }
    }
}

/// Scanning for the end of an expression passes over another opener.
proof fn lemma_opener_passed(s: Seq<char>, j: int, again: Seq<char>)
    requires
        again == "{{"@ || again == "{%"@,
        starts_at(s, j, again),
        j + 2 <= s.len(),
    ensures
        closer_end(s, j, "}}"@) == closer_end(s, j + 2, "}}"@),
{
    lemma_delimiter_chars();
    lemma_starts_pair(s, j, again);
    lemma_starts_pair(s, j, "}}"@);
    lemma_starts_pair(s, j + 1, "}}"@);
    assert(closer_end(s, j, "}}"@) == closer_end(s, j + 1, "}}"@));
    assert(closer_end(s, j + 1, "}}"@) == closer_end(s, j + 2, "}}"@));
}

/// An expression with another opener ends where it should.
pub proof fn lemma_reopened_end(
    s: Seq<char>,
    i: int,
    left: Seq<char>,
    again: Seq<char>,
    right: Seq<char>,
)
    requires
        0 <= i,
        starts_at(s, i, "{{"@ + left + again + right + "}}"@),
        quiet_from(left, 0),
        quiet_from(right, 0),
        again == "{{"@ || again == "{%"@,
    ensures
        starts_at(s, i, "{{"@),
        closer_end(s, i + 2, "}}"@) == Some(i + left.len() + right.len() + 6),
        s.subrange(i + 2, i + left.len() + right.len() + 4) == left + again + right,
{
    let open = "{{"@;
    let close = "}}"@;
    lemma_delimiter_chars();
    assert(open + left + again + right + close =~= open + (left + (again + (right + close))));
    lemma_starts_split(s, i, open, left + (again + (right + close)));
    lemma_starts_split(s, i + 2, left, again + (right + close));
    let j = i + 2 + left.len() as int;
    lemma_starts_split(s, j, again, right + close);
    lemma_starts_split(s, j + 2, right, close);
    lemma_scanned_over(s, i + 2, left, 0, close);
    lemma_opener_passed(s, j, again);
    lemma_closer_behind(s, j + 2, right, 0, close);
    let inner = s.subrange(i + 2, i + left.len() + right.len() + 4);
    assert forall|k: int| 0 <= k < inner.len() implies inner[k] == (left + again + right)[k] by {
        if k < left.len() {
            assert(s.subrange(i + 2, i + 2 + left.len())[k] == left[k]);
        } else if k < left.len() + 2 {
            assert(s.subrange(j, j + 2)[k - left.len()] == again[k - left.len()]);
        } else {
            let m = k - left.len() - 2;
            assert(s.subrange(j + 2, j + 2 + right.len())[m] == right[m]);
        }
    }
    assert(inner =~= left + again + right);
}

/// An opener behind a quiet piece stands outside of quoted strings.
pub proof fn lemma_opener_seen(left: Seq<char>, again: Seq<char>, right: Seq<char>)
    requires
        quiet_from(left, 0),
        again == "{{"@ || again == "{%"@,
    ensures
        opener_outside_quotes(left + again + right),
{
    let inner = left + again + right;
    lemma_delimiter_chars();
    assert(inner.subrange(0, left.len() as int) =~= left);
    lemma_scanned_over(inner, 0, left, 0, again);
    assert(inner.subrange(left.len() as int, left.len() as int + 2) =~= again);
    lemma_starts_pair(inner, left.len() as int, again);
}

/// An expression or a statement that is opened inside an expression is an error,
/// behind whatever simple pieces and whatever comes after.
#[verifier::rlimit(40)]
pub proof fn law_reopened_expression_is_an_error(
    parts: Seq<Part>,
    left: Seq<char>,
    again: Seq<char>,
    right: Seq<char>,
    tail: Seq<char>,
)
    requires
        all_simple(parts),
        quiet_from(left, 0),
        quiet_from(right, 0),
        again == "{{"@ || again == "{%"@,
    ensures
        errors_among(
            findings(assembled(parts) + ("{{"@ + left + again + right + "}}"@) + tail),
        ) > 0,
{
    let a = assembled(parts);
    let piece = "{{"@ + left + again + right + "}}"@;
    let s = a + piece + tail;
    let i = a.len() as int;
    assert(s.subrange(0, i) =~= a);
    assert(s.subrange(i, i + piece.len()) =~= piece);
    lemma_reopened_end(s, i, left, again, right);
    lemma_opener_seen(left, again, right);
    assert forall|st: Seq<OpenBlock>| errors_among((#[trigger] lint_from(s, i, st)).0) > 0 by {
        lemma_delimiter_chars();
        let l = look(s, i, st);
        assert(l.found.len() == 1 && l.found[0].severity == Severity::Error);
        assert(errors_among(l.found) == 1) by {
            reveal_with_fuel(errors_among, 2);
        }
        law_errors_add_up(l.found, lint_from(s, l.next->Some_0, l.stack).0);
    }
    lemma_error_behind(s, 0, parts, Seq::empty());
    lemma_delimiter_chars();
    lemma_starts_pair(s, i, "{{"@);
    lemma_errors_of_the_whole(s, i);
}

/// Which characters count as white space and which make up words: those that Unicode
/// calls white space; and ASCII letters, digits and the underscore.
pub proof fn law_white_space_and_words(c: char)
    ensures
        is_white(c) <==> c == ' ' || c == '\u{a0}' || ('\t' <= c <= '\r') || c == '\u{85}' || c
            == '\u{1680}' || ('\u{2000}' <= c <= '\u{200a}') || c == '\u{2028}' || c
            == '\u{2029}' || c == '\u{202f}' || c == '\u{205f}' || c == '\u{3000}',
        is_word_char(c) <==> ('a' <= c <= 'z') || ('A' <= c <= 'Z') || ('0' <= c <= '9') || c
            == '_',
{
}

} // verus!
