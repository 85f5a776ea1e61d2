//! Where the linter points: every finding that a piece of a template gives rise to
//! is reported at the place where that piece stands.

use crate::linting::{
    closer_for, lemma_no_closer, lemma_not_blank, lemma_opener_seen, lemma_reopened_end,
};
use crate::nesting::{
    all_simple, assembled, begins_block, delimits, ended_block, known_tag, lemma_comment,
    lemma_delimiter_chars, lemma_enclosed, lemma_expression, lemma_misplaced, lemma_starts_pair,
    lemma_statement, lemma_text, open_behind, part_text, quiet_from, simple, tags_of, Part,
};
use crate::template::{
    closer_end, end_position, findings, hints, lemma_look, lint_from, look, raw_end, statement,
    tag_of, unclosed, OpenBlock, Severity, SpecIssue,
};
use crate::text::{has_text, is_white, starts_at};
use crate::wire::lemma_starts_split;
use vstd::prelude::*;
use vstd::string::*;

verus! {

/// A finding of this severity at the place of position `i`, with this message.
pub open spec fn issue_at(
    s: Seq<char>,
    i: int,
    severity: Severity,
    message: Seq<char>,
) -> SpecIssue {
    SpecIssue { severity, pos: Some(end_position(s.take(i))), message }
}

/// There is this finding.
pub open spec fn points_out(found: Seq<SpecIssue>, issue: SpecIssue) -> bool {
    exists|j: int| 0 <= j < found.len() && #[trigger] found[j] == issue
}

/// What is said of an opened delimiter that is not closed.
pub open spec fn unclosed_text(opener: Seq<char>) -> Seq<char> {
    if opener == "{{"@ {
        "unclosed '{{' expression"@
    } else if opener == "{%"@ {
        "unclosed '{%' statement"@
    } else {
        "unclosed '{#' comment"@
    }
}

/// What is said of a statement that ends or divides a block where none is open.
pub open spec fn misplaced_text(tag: Seq<char>) -> Seq<char> {
    if tag == "elif"@ {
        "'{% "@ + tag + " %}' outside "@ + "'{% if %}'"@
    } else if tag == "else"@ {
        "'{% "@ + tag + " %}' outside "@ + "'{% if %}'/'{% for %}'"@
    } else {
        "'{% "@ + tag + " %}' without a matching '{% "@ + ended_block(tag)->Some_0 + " %}'"@
    }
}

/// What is said of an empty statement, and of one with an unknown tag.
pub open spec fn odd_text(tag: Seq<char>) -> Seq<char> {
    if tag.len() == 0 {
        "empty '{% %}' statement"@
    } else {
        "unknown statement tag '"@ + tag + "'"@
    }
}

/// Going through a template gives such a finding, or leaves such a block open.
spec fn told(s: Seq<char>, r: (Seq<SpecIssue>, Seq<OpenBlock>), issue: SpecIssue) -> bool {
    points_out(r.0 + unclosed(s, r.1), issue)
}

/// A finding stays one among more.
proof fn lemma_pointed_out(
    before: Seq<SpecIssue>,
    found: Seq<SpecIssue>,
    after: Seq<SpecIssue>,
    issue: SpecIssue,
)
    requires
        points_out(found, issue),
    ensures
        points_out(before + found + after, issue),
{
    let j = choose|j: int| 0 <= j < found.len() && #[trigger] found[j] == issue;
    assert((before + found + after)[before.len() + j] == found[j]);
}

/// What is told later is told.
proof fn lemma_told_later(
    s: Seq<char>,
    found: Seq<SpecIssue>,
    r: (Seq<SpecIssue>, Seq<OpenBlock>),
    issue: SpecIssue,
)
    requires
        told(s, r, issue),
    ensures
        told(s, (found + r.0, r.1), issue),
{
    let all = r.0 + unclosed(s, r.1);
    lemma_pointed_out(found, all, Seq::empty(), issue);
    assert(found + all + Seq::<SpecIssue>::empty() =~= found + r.0 + unclosed(s, r.1));
}

/// No piece is a statement.
pub open spec fn no_statements(parts: Seq<Part>) -> bool {
    forall|i: int| 0 <= i < parts.len() ==> !(#[trigger] parts[i] is Statement)
}

/// What is told behind simple pieces, whatever is open there, is told of the whole;
/// with no statement among the pieces, nothing is opened or closed before it.
proof fn lemma_told_behind(
    s: Seq<char>,
    i: int,
    parts: Seq<Part>,
    stack: Seq<OpenBlock>,
    fixed: bool,
    issue: SpecIssue,
)
    requires
        starts_at(s, i, assembled(parts)),
        all_simple(parts),
        fixed ==> no_statements(parts),
        forall|st: Seq<OpenBlock>|
            (fixed ==> st == stack) ==> told(
                s,
                #[trigger] lint_from(s, i + assembled(parts).len(), st),
                issue,
            ),
    ensures
        told(s, lint_from(s, i, stack), issue),
    decreases parts.len(),
{
    if parts.len() == 0 {
        assert(told(s, lint_from(s, i + assembled(parts).len(), stack), issue));
    } else {
        let rest = parts.skip(1);
        let part = parts[0];
        let text = part_text(part);
        lemma_starts_split(s, i, text, assembled(rest));
        lemma_delimiter_chars();
        assert(simple(part));
        assert forall|k: int| 0 <= k < rest.len() implies simple(#[trigger] rest[k]) by {
            assert(rest[k] == parts[k + 1]);
        }
        assert forall|k: int| fixed && 0 <= k < rest.len() implies !(
        #[trigger] rest[k] is Statement) by {
            assert(rest[k] == parts[k + 1]);
        }
        let next = i + text.len();
        assert(next + assembled(rest).len() == i + assembled(parts).len());
        let l = look(s, i, stack);
        match part {
            Part::Text(t) => {
                lemma_text(s, i, t, stack);
                lemma_told_behind(s, next, rest, stack, fixed, issue);
            },
            Part::Expression(t) => {
                lemma_expression(s, i, t, stack);
                lemma_told_behind(s, next, rest, l.stack, fixed, issue);
                lemma_told_later(s, l.found, lint_from(s, next, l.stack), issue);
            },
            Part::Comment(t) => {
                lemma_comment(s, i, t, stack);
                lemma_told_behind(s, next, rest, l.stack, fixed, issue);
                lemma_told_later(s, l.found, lint_from(s, next, l.stack), issue);
            },
            Part::Statement(t) => {
                if open_behind(t, tags_of(stack)) is Some {
                    lemma_statement(s, i, t, stack);
                } else {
                    lemma_misplaced(s, i, t, stack);
                }
                lemma_told_behind(s, next, rest, l.stack, fixed, issue);
                lemma_told_later(s, l.found, lint_from(s, next, l.stack), issue);
            },
        }
    }
}

/// What is told while going through a template is among the findings.
proof fn lemma_told_of_the_whole(s: Seq<char>, k: int, issue: SpecIssue)
    requires
        0 <= k < s.len(),
        !is_white(s[k]),
        told(s, lint_from(s, 0, Seq::empty()), issue),
    ensures
        points_out(findings(s), issue),
{
    lemma_not_blank(s, k);
    let (found, stack) = lint_from(s, 0, Seq::empty());
    let all = found + unclosed(s, stack);
    lemma_pointed_out(Seq::empty(), all, hints(s), issue);
    assert(Seq::<SpecIssue>::empty() + all + hints(s) =~= findings(s));
}

/// The first finding of a look is told.
proof fn lemma_look_told(s: Seq<char>, i: int, st: Seq<OpenBlock>, issue: SpecIssue)
    requires
        0 <= i < s.len(),
        look(s, i, st).found.len() > 0,
        look(s, i, st).found[0] == issue,
    ensures
        told(s, lint_from(s, i, st), issue),
{
    let l = look(s, i, st);
    let r = lint_from(s, i, st);
    lemma_look(s, i, st);
    let all = r.0 + unclosed(s, r.1);
    assert(r.0[0] == l.found[0]);
    assert(all[0] == l.found[0]);
}

/// A template and a piece of it.
proof fn lemma_piece(a: Seq<char>, piece: Seq<char>, tail: Seq<char>)
    ensures
        starts_at(a + piece + tail, 0, a),
        starts_at(a + piece + tail, a.len() as int, piece),
        piece.len() > 0 ==> (a + piece + tail)[a.len() as int] == piece[0],
{
    let s = a + piece + tail;
    assert(s.subrange(0, a.len() as int) =~= a);
    assert(s.subrange(a.len() as int, a.len() + piece.len() as int) =~= piece);
}

/// An expression, a statement or a comment that is never closed is reported where
/// it is opened.
pub proof fn law_place_of_an_unclosed_delimiter(
    parts: Seq<Part>,
    opener: Seq<char>,
    tail: Seq<char>,
)
    requires
        all_simple(parts),
        closer_for(opener) matches Some(closer) && !has_text(tail, closer),
    ensures
        ({
            let s = assembled(parts) + opener + tail;
            points_out(
                findings(s),
                issue_at(s, assembled(parts).len() as int, Severity::Error, unclosed_text(opener)),
            )
        }),
{
    let a = assembled(parts);
    let s = a + opener + tail;
    let closer = closer_for(opener)->Some_0;
    let i = a.len() as int;
    let issue = issue_at(s, i, Severity::Error, unclosed_text(opener));
    lemma_delimiter_chars();
    lemma_piece(a, opener, tail);
    lemma_starts_pair(s, i, "{{"@);
    lemma_starts_pair(s, i, "{%"@);
    lemma_starts_pair(s, i, "{#"@);
    assert forall|k: int| i + 2 <= k implies !#[trigger] starts_at(s, k, closer) by {
        if starts_at(s, k, closer) {
            let j = k - i - 2;
            assert(tail.subrange(j, j + closer.len()) =~= s.subrange(k, k + closer.len()));
            assert(starts_at(tail, j, closer));
        }
    }
    lemma_no_closer(s, i + 2, closer);
    assert forall|st: Seq<OpenBlock>| told(
        s,
        #[trigger] lint_from(s, i, st),
        issue,
    ) by {
        lemma_look_told(s, i, st, issue);
    }
    lemma_told_behind(s, 0, parts, Seq::empty(), false, issue);
    lemma_told_of_the_whole(s, i, issue);
}

/// An expression in which another one, or a statement, is opened is reported where
/// it begins.
pub proof fn law_place_of_a_reopened_expression(
    parts: Seq<Part>,
    left: Seq<char>,
    again: Seq<char>,
    right: Seq<char>,
    tail: Seq<char>,
)
    requires
        all_simple(parts),
        quiet_from(left, 0),
        quiet_from(right, 0),
        again == "{{"@ || again == "{%"@,
    ensures
        ({
            let s = assembled(parts) + ("{{"@ + left + again + right + "}}"@) + tail;
            points_out(
                findings(s),
                issue_at(
                    s,
                    assembled(parts).len() as int,
                    Severity::Error,
                    "'{{' opened again inside an expression"@,
                ),
            )
        }),
{
    let a = assembled(parts);
    let piece = "{{"@ + left + again + right + "}}"@;
    let s = a + piece + tail;
    let i = a.len() as int;
    let issue = issue_at(s, i, Severity::Error, "'{{' opened again inside an expression"@);
    lemma_piece(a, piece, tail);
    lemma_reopened_end(s, i, left, again, right);
    lemma_opener_seen(left, again, right);
    lemma_delimiter_chars();
    lemma_starts_pair(s, i, "{{"@);
    assert forall|st: Seq<OpenBlock>| told(
        s,
        #[trigger] lint_from(s, i, st),
        issue,
    ) by {
        lemma_look_told(s, i, st, issue);
    }
    lemma_told_behind(s, 0, parts, Seq::empty(), false, issue);
    lemma_told_of_the_whole(s, i, issue);
}

// ---------------------------------------------------------------------------
// Statements
// ---------------------------------------------------------------------------

/// A statement somewhere in a template.
proof fn lemma_statement_at(s: Seq<char>, i: int, t: Seq<char>)
    requires
        0 <= i,
        starts_at(s, i, part_text(Part::Statement(t))),
        quiet_from(t, 0),
    ensures
        i + t.len() + 4 <= s.len(),
        s[i] == '{',
        starts_at(s, i, "{%"@),
        !starts_at(s, i, "{{"@),
        closer_end(s, i + 2, "%}"@) == Some(i + t.len() + 4),
        s.subrange(i + 2, i + t.len() + 2) == t,
{
    lemma_delimiter_chars();
    lemma_enclosed(s, i, "{%"@, t, "%}"@);
    lemma_starts_pair(s, i, "{{"@);
    lemma_starts_pair(s, i, "{%"@);
}

/// A statement that opens a block which nothing closes is reported where it stands.
pub proof fn law_place_of_an_unclosed_block(parts: Seq<Part>, t: Seq<char>, tail: Seq<char>)
    requires
        all_simple(parts),
        quiet_from(t, 0),
        begins_block(tag_of(t)),
        !(tag_of(t) == "set"@ && t.contains('=')),
        forall|k: int| 0 <= k < tail.len() ==> !delimits(#[trigger] tail[k]),
    ensures
        ({
            let s = assembled(parts) + part_text(Part::Statement(t)) + tail;
            points_out(
                findings(s),
                issue_at(
                    s,
                    assembled(parts).len() as int,
                    Severity::Error,
                    "unclosed '{% "@ + tag_of(t) + " %}'"@,
                ),
            )
        }),
{
    let a = assembled(parts);
    let piece = part_text(Part::Statement(t));
    let s = a + piece + tail;
    let i = a.len() as int;
    let issue = issue_at(s, i, Severity::Error, "unclosed '{% "@ + tag_of(t) + " %}'"@);
    lemma_piece(a, piece, tail);
    lemma_statement_at(s, i, t);
    lemma_known_tags(tag_of(t));
    let end = i + t.len() + 4;
    lemma_delimiter_chars();
    assert(end == i + piece.len());
    assert(s.subrange(end, s.len() as int) =~= tail);
    assert forall|st: Seq<OpenBlock>| told(
        s,
        #[trigger] lint_from(s, i, st),
        issue,
    ) by {
        let l = look(s, i, st);
        let opened = st.push(OpenBlock { tag: tag_of(t), at: i });
        assert(statement(s, i, end, st) == (Seq::<SpecIssue>::empty(), opened));
        assert(l.stack == opened && l.next == Some(end));
        lemma_text(s, end, tail, opened);
        let r = lint_from(s, end, opened);
        assert(r == (Seq::<SpecIssue>::empty(), opened));
        let all = r.0 + unclosed(s, opened);
        assert(all[st.len() as int] == unclosed(s, opened)[st.len() as int]);
        assert(told(s, r, issue));
        lemma_told_later(s, l.found, r, issue);
    }
    lemma_told_behind(s, 0, parts, Seq::empty(), false, issue);
    lemma_told_of_the_whole(s, i, issue);
}

/// A tag that begins a block is not one that divides or ends one.
proof fn lemma_known_tags(tag: Seq<char>)
    requires
        begins_block(tag),
    ensures
        tag != "raw"@,
        tag != "elif"@,
        tag != "else"@,
        ended_block(tag) is None,
{
    reveal_strlit("raw");
    reveal_strlit("elif");
    reveal_strlit("else");
    reveal_strlit("endfor");
    reveal_strlit("endif");
    reveal_strlit("endmacro");
    reveal_strlit("endfilter");
    reveal_strlit("endblock");
    reveal_strlit("endgeneration");
    reveal_strlit("endset");
    reveal_strlit("for");
    reveal_strlit("if");
    reveal_strlit("macro");
    reveal_strlit("filter");
    reveal_strlit("block");
    reveal_strlit("generation");
    reveal_strlit("set");
    assert("raw"@[0] == 'r');
    assert("elif"@[1] == 'l' && "else"@[1] == 'l' && "elif"@[0] == 'e' && "else"@[0] == 'e');
    assert("endfor"@[0] == 'e' && "endif"@[0] == 'e' && "endmacro"@[0] == 'e' && "endfilter"@[0]
        == 'e' && "endblock"@[0] == 'e' && "endgeneration"@[0] == 'e' && "endset"@[0] == 'e');
    assert("for"@[0] == 'f' && "if"@[0] == 'i' && "macro"@[0] == 'm' && "filter"@[0] == 'f'
        && "block"@[0] == 'b' && "generation"@[0] == 'g' && "set"@[0] == 's');
}

/// A statement that ends or divides a block where nothing is open is reported where
/// it stands.
#[verifier::rlimit(40)]
pub proof fn law_place_of_a_misplaced_statement(parts: Seq<Part>, t: Seq<char>, tail: Seq<char>)
    requires
        all_simple(parts),
        no_statements(parts),
        quiet_from(t, 0),
        ended_block(tag_of(t)) is Some || tag_of(t) == "else"@ || tag_of(t) == "elif"@,
    ensures
        ({
            let s = assembled(parts) + part_text(Part::Statement(t)) + tail;
            points_out(
                findings(s),
                issue_at(
                    s,
                    assembled(parts).len() as int,
                    Severity::Error,
                    misplaced_text(tag_of(t)),
                ),
            )
        }),
{
    let a = assembled(parts);
    let piece = part_text(Part::Statement(t));
    let s = a + piece + tail;
    let i = a.len() as int;
    let issue = issue_at(s, i, Severity::Error, misplaced_text(tag_of(t)));
    let none = Seq::<OpenBlock>::empty();
    lemma_piece(a, piece, tail);
    lemma_statement_at(s, i, t);
    assert forall|st: Seq<OpenBlock>| st == none implies told(
        s,
        #[trigger] lint_from(s, i, st),
        issue,
    ) by {
        lemma_misplaced_look(s, i, t);
        lemma_look_told(s, i, st, issue);
    }
    lemma_told_behind(s, 0, parts, none, true, issue);
    lemma_told_of_the_whole(s, i, issue);
}

/// What a look at a misplaced statement finds where nothing is open.
proof fn lemma_misplaced_look(s: Seq<char>, i: int, t: Seq<char>)
    requires
        0 <= i,
        starts_at(s, i, part_text(Part::Statement(t))),
        quiet_from(t, 0),
        ended_block(tag_of(t)) is Some || tag_of(t) == "else"@ || tag_of(t) == "elif"@,
    ensures
        look(s, i, Seq::empty()).found.len() == 1,
        look(s, i, Seq::empty()).found[0] == issue_at(
            s,
            i,
            Severity::Error,
            misplaced_text(tag_of(t)),
        ),
{
    lemma_statement_at(s, i, t);
    lemma_not_raw(tag_of(t));
    assert(look(s, i, Seq::empty()).found == statement(s, i, i + t.len() + 4, Seq::empty()).0);
}

/// A tag that ends or divides a block does not begin a raw one.
proof fn lemma_not_raw(tag: Seq<char>)
    requires
        ended_block(tag) is Some || tag == "else"@ || tag == "elif"@,
    ensures
        tag != "raw"@,
{
    reveal_strlit("raw");
    reveal_strlit("elif");
    reveal_strlit("else");
    reveal_strlit("endfor");
    reveal_strlit("endif");
    reveal_strlit("endmacro");
    reveal_strlit("endfilter");
    reveal_strlit("endblock");
    reveal_strlit("endgeneration");
    reveal_strlit("endset");
    assert("raw"@.len() == 3 && "elif"@.len() == 4 && "else"@.len() == 4);
    assert("endfor"@.len() == 6 && "endif"@.len() == 5 && "endmacro"@.len() == 8
        && "endfilter"@.len() == 9 && "endblock"@.len() == 8 && "endgeneration"@.len() == 13
        && "endset"@.len() == 6);
}

/// What a look at an odd statement finds.
proof fn lemma_odd_look(s: Seq<char>, i: int, t: Seq<char>, st: Seq<OpenBlock>)
    requires
        0 <= i,
        starts_at(s, i, part_text(Part::Statement(t))),
        quiet_from(t, 0),
        tag_of(t) != "raw"@,
        !known_tag(tag_of(t)),
    ensures
        look(s, i, st).found.len() == 1,
        look(s, i, st).found[0] == issue_at(
            s,
            i,
            if tag_of(t).len() == 0 {
                Severity::Error
            } else {
                Severity::Warning
            },
            odd_text(tag_of(t)),
        ),
{
    lemma_statement_at(s, i, t);
    assert(look(s, i, st).found == statement(s, i, i + t.len() + 4, st).0);
}

/// An empty statement is an error, and a statement with an unknown tag a warning,
/// where it stands.
#[verifier::rlimit(40)]
pub proof fn law_place_of_an_odd_statement(parts: Seq<Part>, t: Seq<char>, tail: Seq<char>)
    requires
        all_simple(parts),
        quiet_from(t, 0),
        tag_of(t) != "raw"@,
        !known_tag(tag_of(t)),
    ensures
        ({
            let s = assembled(parts) + part_text(Part::Statement(t)) + tail;
            let severity = if tag_of(t).len() == 0 {
                Severity::Error
            } else {
                Severity::Warning
            };
            points_out(
                findings(s),
                issue_at(s, assembled(parts).len() as int, severity, odd_text(tag_of(t))),
            )
        }),
{
    let a = assembled(parts);
    let piece = part_text(Part::Statement(t));
    let s = a + piece + tail;
    let i = a.len() as int;
    let severity = if tag_of(t).len() == 0 {
        Severity::Error
    } else {
        Severity::Warning
    };
    let issue = issue_at(s, i, severity, odd_text(tag_of(t)));
    lemma_piece(a, piece, tail);
    lemma_statement_at(s, i, t);
    assert forall|st: Seq<OpenBlock>| told(s, #[trigger] lint_from(s, i, st), issue) by {
        lemma_odd_look(s, i, t, st);
        lemma_look_told(s, i, st, issue);
    }
    lemma_told_behind(s, 0, parts, Seq::empty(), false, issue);
    lemma_told_of_the_whole(s, i, issue);
}

/// A closing delimiter that nothing opened is a warning where it stands.
pub proof fn law_place_of_a_stray_delimiter(
    parts: Seq<Part>,
    closer: Seq<char>,
    tail: Seq<char>,
)
    requires
        all_simple(parts),
        closer == "}}"@ || closer == "%}"@,
    ensures
        ({
            let s = assembled(parts) + closer + tail;
            points_out(
                findings(s),
                issue_at(
                    s,
                    assembled(parts).len() as int,
                    Severity::Warning,
                    "stray '"@ + closer + "' outside any expression"@,
                ),
            )
        }),
{
    let a = assembled(parts);
    let s = a + closer + tail;
    let i = a.len() as int;
    let issue = issue_at(
        s,
        i,
        Severity::Warning,
        "stray '"@ + closer + "' outside any expression"@,
    );
    lemma_delimiter_chars();
    lemma_piece(a, closer, tail);
    lemma_starts_pair(s, i, "{{"@);
    lemma_starts_pair(s, i, "{%"@);
    lemma_starts_pair(s, i, "{#"@);
    assert forall|st: Seq<OpenBlock>| told(
        s,
        #[trigger] lint_from(s, i, st),
        issue,
    ) by {
        lemma_look_told(s, i, st, issue);
    }
    lemma_told_behind(s, 0, parts, Seq::empty(), false, issue);
    lemma_told_of_the_whole(s, i, issue);
}

// ---------------------------------------------------------------------------
// Raw blocks
// ---------------------------------------------------------------------------

/// Without a further statement a raw block has no end.
proof fn lemma_no_raw_end(s: Seq<char>, j: int)
    requires
        0 <= j,
        forall|k: int| j <= k ==> !#[trigger] starts_at(s, k, "{%"@),
    ensures
        raw_end(s, j) is None,
    decreases s.len() - j,
{
    if j < s.len() {
        assert(!starts_at(s, j, "{%"@));
        lemma_no_raw_end(s, j + 1);
    }
}

/// A raw block that is not ended is an error where it begins.
pub proof fn law_place_of_an_unended_raw_block(parts: Seq<Part>, t: Seq<char>, tail: Seq<char>)
    requires
        all_simple(parts),
        quiet_from(t, 0),
        tag_of(t) == "raw"@,
        !has_text(tail, "{%"@),
    ensures
        ({
            let s = assembled(parts) + part_text(Part::Statement(t)) + tail;
            points_out(
                findings(s),
                issue_at(
                    s,
                    assembled(parts).len() as int,
                    Severity::Error,
                    "'{% raw %}' without '{% endraw %}'"@,
                ),
            )
        }),
{
    let a = assembled(parts);
    let piece = part_text(Part::Statement(t));
    let s = a + piece + tail;
    let i = a.len() as int;
    let issue = issue_at(s, i, Severity::Error, "'{% raw %}' without '{% endraw %}'"@);
    let end = i + t.len() + 4;
    lemma_piece(a, piece, tail);
    lemma_statement_at(s, i, t);
    lemma_delimiter_chars();
    assert(end == i + piece.len());
    assert forall|k: int| end <= k implies !#[trigger] starts_at(s, k, "{%"@) by {
        if starts_at(s, k, "{%"@) {
            let j = k - end;
            assert(tail.subrange(j, j + 2) =~= s.subrange(k, k + 2));
            assert(starts_at(tail, j, "{%"@));
        }
    }
    lemma_no_raw_end(s, end);
    assert forall|st: Seq<OpenBlock>| told(
        s,
        #[trigger] lint_from(s, i, st),
        issue,
    ) by {
        lemma_look_told(s, i, st, issue);
    }
    lemma_told_behind(s, 0, parts, Seq::empty(), false, issue);
    lemma_told_of_the_whole(s, i, issue);
}

/// The end of a raw block.
proof fn lemma_raw_end_at(s: Seq<char>, j: int, end: int, u: Seq<char>)
    requires
        0 <= j <= end,
        forall|k: int| j <= k < end ==> !#[trigger] starts_at(s, k, "{%"@),
        starts_at(s, end, part_text(Part::Statement(u))),
        quiet_from(u, 0),
        tag_of(u) == "endraw"@,
    ensures
        raw_end(s, j) == Some(end + part_text(Part::Statement(u)).len() as int),
    decreases end - j,
{
    lemma_delimiter_chars();
    lemma_statement_at(s, end, u);
    if j < end {
        assert(!starts_at(s, j, "{%"@));
        lemma_raw_end_at(s, j + 1, end, u);
    }
}

/// What stands in a raw block is not looked at, whatever it is: going through a
/// template goes on behind it with the same blocks open and nothing found.
#[verifier::rlimit(40)]
pub proof fn law_raw_blocks_are_passed_over(
    before: Seq<char>,
    t: Seq<char>,
    inner: Seq<char>,
    u: Seq<char>,
    tail: Seq<char>,
    stack: Seq<OpenBlock>,
)
    requires
        quiet_from(t, 0),
        tag_of(t) == "raw"@,
        !has_text(inner, "{%"@),
        quiet_from(u, 0),
        tag_of(u) == "endraw"@,
    ensures
        ({
            let raw = part_text(Part::Statement(t)) + inner + part_text(Part::Statement(u));
            let s = before + raw + tail;
            lint_from(s, before.len() as int, stack) == lint_from(
                s,
                before.len() + raw.len() as int,
                stack,
            )
        }),
{
    let first = part_text(Part::Statement(t));
    let last = part_text(Part::Statement(u));
    let raw = first + inner + last;
    let s = before + raw + tail;
    let i = before.len() as int;
    lemma_piece(before, raw, tail);
    assert(raw =~= first + (inner + last));
    lemma_starts_split(s, i, first, inner + last);
    lemma_starts_split(s, i + first.len(), inner, last);
    lemma_raw_passed(s, i, t, inner, u, stack);
    assert(raw.len() == first.len() + inner.len() + last.len());
}

/// A raw block is passed over.
proof fn lemma_raw_passed(
    s: Seq<char>,
    i: int,
    t: Seq<char>,
    inner: Seq<char>,
    u: Seq<char>,
    stack: Seq<OpenBlock>,
)
    requires
        0 <= i,
        starts_at(s, i, part_text(Part::Statement(t))),
        quiet_from(t, 0),
        tag_of(t) == "raw"@,
        starts_at(s, i + part_text(Part::Statement(t)).len(), inner),
        !has_text(inner, "{%"@),
        starts_at(
            s,
            i + part_text(Part::Statement(t)).len() + inner.len(),
            part_text(Part::Statement(u)),
        ),
        quiet_from(u, 0),
        tag_of(u) == "endraw"@,
    ensures
        lint_from(s, i, stack) == lint_from(
            s,
            i + part_text(Part::Statement(t)).len() + inner.len() + part_text(
                Part::Statement(u),
            ).len(),
            stack,
        ),
{
    let last = part_text(Part::Statement(u));
    let from = i + part_text(Part::Statement(t)).len() as int;
    let end = from + inner.len() as int;
    let next = end + last.len() as int;
    assert(from == i + t.len() + 4) by {
        lemma_delimiter_chars();
    }
    lemma_statement_at(s, i, t);
    lemma_statement_at(s, end, u);
    lemma_no_statement_inside(s, from, inner);
    lemma_raw_end_at(s, from, end, u);
    lemma_raw_look(s, i, t, stack, next);
    let rest = lint_from(s, next, stack);
    assert(Seq::<SpecIssue>::empty() + rest.0 =~= rest.0);
    assert(lint_from(s, i, stack) == (Seq::<SpecIssue>::empty() + rest.0, rest.1));
}

/// Text without statements, before a statement.
proof fn lemma_no_statement_inside(s: Seq<char>, from: int, inner: Seq<char>)
    requires
        0 <= from,
        starts_at(s, from, inner),
        !has_text(inner, "{%"@),
        from + inner.len() < s.len(),
        s[from + inner.len()] == '{',
    ensures
        forall|k: int| from <= k < from + inner.len() ==> !#[trigger] starts_at(s, k, "{%"@),
{
    lemma_delimiter_chars();
    let end = from + inner.len() as int;
    assert forall|k: int| from <= k < end implies !#[trigger] starts_at(s, k, "{%"@) by {
        if starts_at(s, k, "{%"@) {
            let j = k - from;
            lemma_starts_pair(s, k, "{%"@);
            if k + 1 < end {
                assert(s.subrange(from, end) == inner);
                assert(inner.subrange(j, j + 2) =~= s.subrange(k, k + 2));
                assert(starts_at(inner, j, "{%"@));
            }
        }
    }
}

/// What a look at a raw block finds.
proof fn lemma_raw_look(s: Seq<char>, i: int, t: Seq<char>, stack: Seq<OpenBlock>, e: int)
    requires
        0 <= i,
        starts_at(s, i, part_text(Part::Statement(t))),
        quiet_from(t, 0),
        tag_of(t) == "raw"@,
        raw_end(s, i + t.len() + 4) == Some(e),
    ensures
        look(s, i, stack).found == Seq::<SpecIssue>::empty(),
        look(s, i, stack).stack == stack,
        look(s, i, stack).next == Some(e),
{
    lemma_statement_at(s, i, t);
}

} // verus!
