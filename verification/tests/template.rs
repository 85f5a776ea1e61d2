use gguf_chisel::template::{error_count, lint, preset, preset_names, Severity};

fn errors(src: &str) -> Vec<String> {
    lint(src)
        .into_iter()
        .filter(|i| i.severity == Severity::Error)
        .map(|i| i.message)
        .collect()
}

#[test]
fn all_six_presets_lint_without_errors() {
    let names = preset_names();
    assert_eq!(names.len(), 6);
    for (name, _) in names {
        let src = preset(name).unwrap();
        let errs = errors(src);
        assert!(errs.is_empty(), "preset '{name}' has lint errors: {errs:?}");
    }

    assert_eq!(preset("vicuna"), None);
}

#[test]
fn a_clean_template_produces_no_issues_at_all() {
    let src = "{% for message in messages %}{{ message['content'] }}{% endfor %}\
               {% if add_generation_prompt %}{{ 'go:' }}{% endif %}";
    assert!(lint(src).is_empty(), "{:?}", lint(src));
}

#[test]
fn unclosed_expression_reports_its_position() {
    let issues = lint("hello\n{{ messages[0] add_generation_prompt");
    let err = issues
        .iter()
        .find(|i| i.severity == Severity::Error)
        .unwrap();
    assert_eq!(err.pos, Some((2, 1)));
    assert!(err.message.contains("unclosed '{{'"), "{}", err.message);
}

#[test]
fn mismatched_and_dangling_closers_are_errors() {
    let errs = errors(
        "{% for m in messages %}{% if x %}{% endfor %} add_generation_prompt{% endif %}",
    );
    assert!(
        errs.iter()
            .any(|e| e.contains("endfor") && e.contains("{% if %}")),
        "{errs:?}"
    );

    let errs = errors("messages add_generation_prompt {% endfor %}");
    assert!(
        errs.iter().any(|e| e.contains("without a matching")),
        "{errs:?}"
    );
}

#[test]
fn unclosed_block_reports_the_opening_line() {
    let issues = lint("{% for m in messages %}{{ m }} add_generation_prompt");
    let err = issues
        .iter()
        .find(|i| i.severity == Severity::Error)
        .unwrap();
    assert!(
        err.message.contains("unclosed '{% for %}'"),
        "{}",
        err.message
    );
    assert_eq!(err.pos, Some((1, 1)));
}

#[test]
fn elif_outside_if_is_an_error_but_else_in_for_is_fine() {
    let errs = errors("{% elif x %} messages add_generation_prompt");
    assert!(errs.iter().any(|e| e.contains("elif")), "{errs:?}");
    let ok = "{% for m in messages %}{{ m }}{% else %}none{% endfor %} add_generation_prompt";
    assert!(errors(ok).is_empty(), "{:?}", errors(ok));
}

#[test]
fn braces_inside_string_literals_are_not_delimiters() {
    // Tool-call templates emit literal JSON — the '}}' inside the quoted
    // string must not terminate the expression early.
    let src =
        "{% for m in messages %}{{ '{\"end\": \"}}\"}' }}{% endfor %} add_generation_prompt";
    assert!(errors(src).is_empty(), "{:?}", errors(src));
}

#[test]
fn raw_blocks_are_skipped_entirely() {
    let src = "{% raw %}{{ unbalanced {% nonsense {% endraw %}\
               {% for m in messages %}{{ m }}{% endfor %} add_generation_prompt";
    assert!(errors(src).is_empty(), "{:?}", errors(src));
    let unclosed = "{% raw %}{{ oops";
    assert!(
        errors(unclosed).iter().any(|e| e.contains("endraw")),
        "{:?}",
        errors(unclosed)
    );
}

#[test]
fn inline_set_needs_no_closer_but_block_set_does() {
    let inline = "{% set sep = '\\n' %} messages add_generation_prompt";
    assert!(errors(inline).is_empty(), "{:?}", errors(inline));
    let block = "{% set body %}x{% endset %} messages add_generation_prompt";
    assert!(errors(block).is_empty(), "{:?}", errors(block));
    let unclosed = "{% set body %}x messages add_generation_prompt";
    assert!(
        errors(unclosed).iter().any(|e| e.contains("set")),
        "{:?}",
        errors(unclosed)
    );
}

#[test]
fn unknown_tags_warn_but_do_not_error() {
    let issues = lint("{% frobnicate %} messages add_generation_prompt");
    assert_eq!(error_count(&issues), 0);
    assert!(issues
        .iter()
        .any(|i| i.severity == Severity::Warning && i.message.contains("frobnicate")));
}

#[test]
fn whole_template_findings_missing_vars_empty_input_stray_closers() {
    let issues = lint("{{ bos_token }}");
    assert_eq!(error_count(&issues), 0);
    let warnings: Vec<&str> = issues.iter().map(|i| i.message.as_str()).collect();
    assert!(
        warnings.iter().any(|w| w.contains("'messages'")),
        "{warnings:?}"
    );
    assert!(
        warnings.iter().any(|w| w.contains("add_generation_prompt")),
        "{warnings:?}"
    );

    let issues = lint("   ");
    assert_eq!(error_count(&issues), 1);
    assert!(issues[0].message.contains("empty"));

    let issues = lint("role }} messages add_generation_prompt");
    let w = issues.iter().find(|i| i.message.contains("stray")).unwrap();
    assert_eq!(w.severity, Severity::Warning);
    assert_eq!(w.pos, Some((1, 6)));
}

/// What lint says: severity, position and message of each finding, without the
/// hints about missing variables.
fn found(src: &str) -> Vec<(Severity, Option<(usize, usize)>, String)> {
    lint(&format!("{src} messages add_generation_prompt"))
        .into_iter()
        .map(|i| (i.severity, i.pos, i.message))
        .collect()
}

#[test]
fn every_kind_of_finding_has_its_message() {
    let e = |pos, m: &str| vec![(Severity::Error, Some(pos), m.to_string())];
    let w = |pos, m: &str| vec![(Severity::Warning, Some(pos), m.to_string())];
    assert_eq!(found("{{ x"), e((1, 1), "unclosed '{{' expression"));
    assert_eq!(found("a\n {% x"), e((2, 2), "unclosed '{%' statement"));
    assert_eq!(found("{# x"), e((1, 1), "unclosed '{#' comment"));
    assert_eq!(
        found("{{ a {{ b }}"),
        e((1, 1), "'{{' opened again inside an expression")
    );
    assert_eq!(
        found("{% raw %}{{"),
        e((1, 1), "'{% raw %}' without '{% endraw %}'")
    );
    assert_eq!(found("{% elif %}"), e((1, 1), "'{% elif %}' outside '{% if %}'"));
    assert_eq!(
        found("{% else %}"),
        e((1, 1), "'{% else %}' outside '{% if %}'/'{% for %}'")
    );
    assert_eq!(
        found("{% endif %}"),
        e((1, 1), "'{% endif %}' without a matching '{% if %}'")
    );
    assert_eq!(
        found("é{% if x %}{% endfor %}"),
        e((1, 12), "'{% endfor %}' closes '{% if %}' opened at 1:2")
    );
    assert_eq!(found("{% %}"), e((1, 1), "empty '{% %}' statement"));
    assert_eq!(found("{%- macro f() -%}"), e((1, 1), "unclosed '{% macro %}'"));
    assert_eq!(found("{% zap %}"), w((1, 1), "unknown statement tag 'zap'"));
    assert_eq!(found("%}"), w((1, 1), "stray '%}' outside any expression"));
    assert_eq!(found("x}}"), w((1, 2), "stray '}}' outside any expression"));
    // Whitespace-control markers, inline tags and quoted closers are fine.
    for ok in [
        "{%- if x -%}{%+ endif +%}",
        "{% include 'x' %}{% do f() %}{% break %}{% continue %}",
        "{{ 'a}}b' }}{{ \"\\\"}}\" }}",
        "{# {{ %} #}",
        "{% raw %}{% if %}{{{% endraw %}",
        "{% for a in b %}{% else %}{% endfor %}",
        "{% generation %}{% endgeneration %}{% block b %}{% endblock %}{% filter f %}{% endfilter %}",
        "{ } { { % # }",
    ] {
        assert_eq!(found(ok), vec![], "{ok}");
    }
}

#[test]
fn hints_come_last_and_blank_templates_are_empty() {
    let issues = lint("x");
    assert_eq!(issues.len(), 2);
    assert_eq!(
        issues[0].message,
        "template never references 'messages' — runtimes pass the chat there"
    );
    assert_eq!(
        issues[1].message,
        "template never checks 'add_generation_prompt'; bare generation prompts may be impossible"
    );
    for blank in ["", " \t\r\n", "\u{a0}\u{2003}\u{3000}"] {
        let issues = lint(blank);
        assert_eq!(issues.len(), 1);
        assert_eq!(issues[0].message, "template is empty");
        assert_eq!(issues[0].pos, None);
    }
}

#[test]
fn presets_are_listed_in_a_fixed_order() {
    let names: Vec<&str> = preset_names().iter().map(|(n, _)| *n).collect();
    assert_eq!(
        names,
        ["chatml", "llama2", "llama3", "mistral", "zephyr", "alpaca"]
    );
    for (name, about) in preset_names() {
        assert!(!about.is_empty());
        assert!(preset(name).unwrap().contains("messages"));
    }
}

#[test]
fn text_that_opens_nothing_has_no_errors() {
    for text in ["plain", "}} %} #} { % #", "a\nb { { } }", "é"] {
        assert_eq!(error_count(&lint(text)), 0, "{text}");
    }
}

#[test]
fn findings_point_at_characters_of_the_template() {
    let text = "{% if a %}\n}} é %}\n{% endfor %}{{ x }}{% zap %}\n{{ {{ }} {% for %}";
    let lines: Vec<&str> = text.split('\n').collect();
    let issues = lint(text);
    assert!(issues.len() > 5);
    for issue in issues {
        if let Some((l, c)) = issue.pos {
            assert!(l >= 1 && l <= lines.len(), "{issue:?}");
            assert!(c >= 1 && c <= lines[l - 1].chars().count(), "{issue:?}");
        }
    }
}

#[test]
fn quoted_delimiters_open_nothing() {
    for text in [
        "{{ '{{' }} messages add_generation_prompt",
        "{{ \"{%\" }} messages add_generation_prompt",
        "{{ 'a' + '{\\'{%' }} messages add_generation_prompt",
        "{% if x == '{{' %}{{ '}}' }}{% endif %} messages add_generation_prompt",
    ] {
        assert!(lint(text).is_empty(), "{text}");
    }
    assert_eq!(
        errors("{{ '{{' {{ b }}"),
        ["'{{' opened again inside an expression"]
    );
    assert_eq!(
        errors("{{ '{%' {% b }}"),
        ["'{{' opened again inside an expression"]
    );
    assert_eq!(
        errors("{{ a {{ b }}"),
        ["'{{' opened again inside an expression"]
    );
}

#[test]
fn templates_whose_blocks_nest_have_no_errors() {
    let text = "a {# it is \"}\" #}{% for m in messages %}{% if m %}{{ m }}{% else %}b\
                {% endif %}{% set x = 1 %}{% set y %}c{% endset %}{% endfor %}{% break %}";
    assert_eq!(errors(text).len(), 0);
    assert_eq!(errors("{% for m in messages %}{% if m %}{% endfor %}{% endif %}").len(), 2);
}

#[test]
fn only_listed_names_are_presets() {
    let names = preset_names();
    for (i, (name, _)) in names.iter().enumerate() {
        for (other, _) in &names[i + 1..] {
            assert_ne!(name, other);
        }
    }
    for name in ["vicuna", "", "ChatML", "llama", "chatml "] {
        assert_eq!(preset(name), None);
    }
}
