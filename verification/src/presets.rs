//! That the preset templates lint clean, and that they are the listed ones.

use crate::nesting::{
    assembled, law_nested_templates_have_no_errors, lemma_delimiter_chars, lemma_tag, nests,
    open_behind, quiet_from, quote_end, Part,
};
use crate::template::{
    errors_among, findings, preset_list, preset_source, tag_of, ALPACA, CHATML, LLAMA2, LLAMA3,
    MISTRAL, ZEPHYR,
};
use crate::text::{trim_end, trim_start};
use vstd::prelude::*;
use vstd::string::*;

verus! {

// ---------------------------------------------------------------------------
// Nesting, piece by piece
// ---------------------------------------------------------------------------

/// What the tags of the presets open and close.
proof fn lemma_preset_tags(body: Seq<char>, open: Seq<Seq<char>>)
    ensures
        tag_of(body) == "for"@ ==> open_behind(body, open) == Some(open.push("for"@)),
        tag_of(body) == "if"@ ==> open_behind(body, open) == Some(open.push("if"@)),
        tag_of(body) == "elif"@ ==> open_behind(body, open.push("if"@)) == Some(
            open.push("if"@),
        ),
        tag_of(body) == "endfor"@ ==> open_behind(body, open.push("for"@)) == Some(open),
        tag_of(body) == "endif"@ ==> open_behind(body, open.push("if"@)) == Some(open),
{
    reveal_strlit("raw");
    reveal_strlit("for");
    reveal_strlit("set");
    reveal_strlit("if");
    reveal_strlit("elif");
    reveal_strlit("else");
    reveal_strlit("endfor");
    reveal_strlit("endset");
    reveal_strlit("endif");
    reveal_strlit("endmacro");
    reveal_strlit("endfilter");
    reveal_strlit("endblock");
    reveal_strlit("endgeneration");
    assert("raw"@.len() == 3);
    assert("for"@.len() == 3);
    assert("set"@.len() == 3);
    assert("if"@.len() == 2);
    assert("elif"@.len() == 4);
    assert("else"@.len() == 4);
    assert("endfor"@.len() == 6);
    assert("endset"@.len() == 6);
    assert("endif"@.len() == 5);
    assert("endmacro"@.len() == 8);
    assert("endfilter"@.len() == 9);
    assert("endblock"@.len() == 8);
    assert("endgeneration"@.len() == 13);
    assert("raw"@[0] == 'r');
    assert("for"@[0] == 'f');
    assert("set"@[0] == 's');
    assert("elif"@[2] == 'i');
    assert("else"@[2] == 's');
    assert("endfor"@[3] == 'f');
    assert("endset"@[3] == 's');
    assert(open.push("for"@).drop_last() =~= open);
    assert(open.push("if"@).drop_last() =~= open);
}

/// Pieces nest from an expression on, where those behind it do.
proof fn lemma_passes(parts: Seq<Part>, k: int, open: Seq<Seq<char>>)
    requires
        0 <= k < parts.len(),
        parts[k] matches Part::Expression(t) && quiet_from(t, 0),
        nests(parts.skip(k + 1), open),
    ensures
        nests(parts.skip(k), open),
{
    assert(parts.skip(k).skip(1) =~= parts.skip(k + 1));
}

/// Pieces nest from a statement on that opens a block, where those behind it do.
proof fn lemma_opens(parts: Seq<Part>, k: int, open: Seq<Seq<char>>, tag: Seq<char>)
    requires
        0 <= k < parts.len(),
        parts[k] matches Part::Statement(t) && quiet_from(t, 0) && tag_of(t) == tag,
        tag == "for"@ || tag == "if"@,
        nests(parts.skip(k + 1), open.push(tag)),
    ensures
        nests(parts.skip(k), open),
{
    lemma_preset_tags(parts[k]->Statement_0, open);
    assert(parts.skip(k).skip(1) =~= parts.skip(k + 1));
}

/// Pieces nest from a branch of an `if` on, where those behind it do.
proof fn lemma_branches(parts: Seq<Part>, k: int, open: Seq<Seq<char>>)
    requires
        0 <= k < parts.len(),
        parts[k] matches Part::Statement(t) && quiet_from(t, 0) && tag_of(t) == "elif"@,
        nests(parts.skip(k + 1), open.push("if"@)),
    ensures
        nests(parts.skip(k), open.push("if"@)),
{
    lemma_preset_tags(parts[k]->Statement_0, open);
    assert(parts.skip(k).skip(1) =~= parts.skip(k + 1));
}

/// Pieces nest from a statement on that closes a block, where those behind it do.
proof fn lemma_closes(parts: Seq<Part>, k: int, open: Seq<Seq<char>>, tag: Seq<char>)
    requires
        0 <= k < parts.len(),
        parts[k] matches Part::Statement(t) && quiet_from(t, 0) && (tag == "for"@ && tag_of(t)
            == "endfor"@ || tag == "if"@ && tag_of(t) == "endif"@),
        nests(parts.skip(k + 1), open),
    ensures
        nests(parts.skip(k), open.push(tag)),
{
    lemma_preset_tags(parts[k]->Statement_0, open);
    assert(parts.skip(k).skip(1) =~= parts.skip(k + 1));
}

// ---------------------------------------------------------------------------
// The statements of the presets
// ---------------------------------------------------------------------------

/// `{% for message in messages %}` is quiet; its tag is `for`.
proof fn lemma_for_messages()
    ensures
        quiet_from(" for message in messages "@, 0),
        tag_of(" for message in messages "@) == "for"@,
{
    let body = " for message in messages "@;
    reveal_strlit(" for message in messages ");
    reveal_strlit("for");
    reveal_with_fuel(quiet_from, 26);
    assert(body.subrange(1, 4) =~= "for"@);
    lemma_tag(body, "for"@);
}

/// `{% endfor %}` is quiet; its tag is `endfor`.
proof fn lemma_endfor()
    ensures
        quiet_from(" endfor "@, 0),
        tag_of(" endfor "@) == "endfor"@,
{
    let body = " endfor "@;
    reveal_strlit(" endfor ");
    reveal_strlit("endfor");
    reveal_with_fuel(quiet_from, 9);
    assert(body.subrange(1, 7) =~= "endfor"@);
    lemma_tag(body, "endfor"@);
}

/// `{% if add_generation_prompt %}` is quiet; its tag is `if`.
proof fn lemma_if_prompt()
    ensures
        quiet_from(" if add_generation_prompt "@, 0),
        tag_of(" if add_generation_prompt "@) == "if"@,
{
    let body = " if add_generation_prompt "@;
    reveal_strlit(" if add_generation_prompt ");
    reveal_strlit("if");
    reveal_with_fuel(quiet_from, 27);
    assert(body.subrange(1, 3) =~= "if"@);
    lemma_tag(body, "if"@);
}

/// `{% endif %}` is quiet; its tag is `endif`.
proof fn lemma_endif()
    ensures
        quiet_from(" endif "@, 0),
        tag_of(" endif "@) == "endif"@,
{
    let body = " endif "@;
    reveal_strlit(" endif ");
    reveal_strlit("endif");
    reveal_with_fuel(quiet_from, 8);
    assert(body.subrange(1, 6) =~= "endif"@);
    lemma_tag(body, "endif"@);
}

/// `{% if message['role'] == 'system' %}` is quiet; its tag is `if`.
proof fn lemma_if_system()
    ensures
        quiet_from(" if message['role'] == 'system' "@, 0),
        tag_of(" if message['role'] == 'system' "@) == "if"@,
{
    let body = " if message['role'] == 'system' "@;
    reveal_strlit(" if message['role'] == 'system' ");
    reveal_strlit("if");
    reveal_with_fuel(quiet_from, 33);
    reveal_with_fuel(quote_end, 14);
    assert(body.subrange(1, 3) =~= "if"@);
    lemma_tag(body, "if"@);
}

/// `{% if message['role'] == 'user' %}` is quiet; its tag is `if`.
proof fn lemma_if_user()
    ensures
        quiet_from(" if message['role'] == 'user' "@, 0),
        tag_of(" if message['role'] == 'user' "@) == "if"@,
{
    let body = " if message['role'] == 'user' "@;
    reveal_strlit(" if message['role'] == 'user' ");
    reveal_strlit("if");
    reveal_with_fuel(quiet_from, 31);
    reveal_with_fuel(quote_end, 14);
    assert(body.subrange(1, 3) =~= "if"@);
    lemma_tag(body, "if"@);
}

/// `{% elif message['role'] == 'user' %}` is quiet; its tag is `elif`.
proof fn lemma_elif_user()
    ensures
        quiet_from(" elif message['role'] == 'user' "@, 0),
        tag_of(" elif message['role'] == 'user' "@) == "elif"@,
{
    let body = " elif message['role'] == 'user' "@;
    reveal_strlit(" elif message['role'] == 'user' ");
    reveal_strlit("elif");
    reveal_with_fuel(quiet_from, 33);
    reveal_with_fuel(quote_end, 14);
    assert(body.subrange(1, 5) =~= "elif"@);
    lemma_tag(body, "elif"@);
}

/// `{% elif message['role'] == 'assistant' %}` is quiet; its tag is `elif`.
proof fn lemma_elif_assistant()
    ensures
        quiet_from(" elif message['role'] == 'assistant' "@, 0),
        tag_of(" elif message['role'] == 'assistant' "@) == "elif"@,
{
    let body = " elif message['role'] == 'assistant' "@;
    reveal_strlit(" elif message['role'] == 'assistant' ");
    reveal_strlit("elif");
    reveal_with_fuel(quiet_from, 38);
    reveal_with_fuel(quote_end, 14);
    assert(body.subrange(1, 5) =~= "elif"@);
    lemma_tag(body, "elif"@);
}

// ---------------------------------------------------------------------------
// The presets
// ---------------------------------------------------------------------------

/// A text starts with a brace and ends with one.
spec fn bounded_by_braces(s: Seq<char>) -> bool {
    s.len() > 0 && s[0] == '{' && s.last() == '}'
}

/// The pieces of the ChatML preset.
pub open spec fn chatml_parts() -> Seq<Part> {
    seq![
        Part::Statement(" for message in messages "@),
        Part::Expression(
            " '<|im_start|>' + message['role'] + '\\n' + message['content'] + '<|im_end|>' + '\\n' "@,
        ),
        Part::Statement(" endfor "@),
        Part::Statement(" if add_generation_prompt "@),
        Part::Expression(" '<|im_start|>assistant\\n' "@),
        Part::Statement(" endif "@),
    ]
}

/// The ChatML preset is the text of its pieces.
proof fn lemma_chatml_text()
    ensures
        CHATML@ == assembled(chatml_parts()),
        bounded_by_braces(CHATML@),
{
    reveal_strlit(" for message in messages ");
    reveal_strlit(
        " '<|im_start|>' + message['role'] + '\\n' + message['content'] + '<|im_end|>' + '\\n' ",
    );
    reveal_strlit(" endfor ");
    reveal_strlit(" if add_generation_prompt ");
    reveal_strlit(" '<|im_start|>assistant\\n' ");
    reveal_strlit(" endif ");
    reveal_strlit(
        "{% for message in messages %}{{ '<|im_start|>' + message['role'] + '\\n' + message['content'] + '<|im_end|>' + '\\n' }}{% endfor %}{% if add_generation_prompt %}{{ '<|im_start|>assistant\\n' }}{% endif %}",
    );
    lemma_delimiter_chars();
    reveal_with_fuel(assembled, 7);
    assert(CHATML@ =~= assembled(chatml_parts()));
}

/// A ChatML turn is quiet.
proof fn lemma_chatml_turn()
    ensures
        quiet_from(
            " '<|im_start|>' + message['role'] + '\\n' + message['content'] + '<|im_end|>' + '\\n' "@,
            0,
        ),
{
    reveal_strlit(
        " '<|im_start|>' + message['role'] + '\\n' + message['content'] + '<|im_end|>' + '\\n' ",
    );
    reveal_with_fuel(quiet_from, 43);
    reveal_with_fuel(quote_end, 14);
}

/// The ChatML generation prompt is quiet.
proof fn lemma_chatml_prompt()
    ensures
        quiet_from(" '<|im_start|>assistant\\n' "@, 0),
{
    reveal_strlit(" '<|im_start|>assistant\\n' ");
    reveal_with_fuel(quiet_from, 5);
    reveal_with_fuel(quote_end, 25);
}

/// The pieces of the ChatML preset nest.
proof fn lemma_chatml_nests()
    ensures
        nests(chatml_parts(), Seq::empty()),
{
    lemma_for_messages();
    lemma_chatml_turn();
    lemma_endfor();
    lemma_if_prompt();
    lemma_chatml_prompt();
    lemma_endif();
    let parts = chatml_parts();
    let none = Seq::<Seq<char>>::empty();
    let looping = none.push("for"@);
    let asking = none.push("if"@);
    assert(nests(parts.skip(6), none));
    lemma_closes(parts, 5, none, "if"@);
    lemma_passes(parts, 4, asking);
    lemma_opens(parts, 3, none, "if"@);
    lemma_closes(parts, 2, none, "for"@);
    lemma_passes(parts, 1, looping);
    lemma_opens(parts, 0, none, "for"@);
    assert(parts.skip(0) =~= parts);
}

/// The pieces of the Llama 2 preset.
pub open spec fn llama2_parts() -> Seq<Part> {
    seq![
        Part::Expression(" bos_token "@),
        Part::Statement(" for message in messages "@),
        Part::Statement(" if message['role'] == 'system' "@),
        Part::Expression(" '<<SYS>>\\n' + message['content'] + '\\n<</SYS>>\\n\\n' "@),
        Part::Statement(" elif message['role'] == 'user' "@),
        Part::Expression(" '[INST] ' + message['content'] + ' [/INST]' "@),
        Part::Statement(" elif message['role'] == 'assistant' "@),
        Part::Expression(" ' ' + message['content'] + ' ' + eos_token "@),
        Part::Statement(" endif "@),
        Part::Statement(" endfor "@),
    ]
}

/// The Llama 2 preset is the text of its pieces.
proof fn lemma_llama2_text()
    ensures
        LLAMA2@ == assembled(llama2_parts()),
        bounded_by_braces(LLAMA2@),
{
    reveal_strlit(" bos_token ");
    reveal_strlit(" for message in messages ");
    reveal_strlit(" if message['role'] == 'system' ");
    reveal_strlit(" '<<SYS>>\\n' + message['content'] + '\\n<</SYS>>\\n\\n' ");
    reveal_strlit(" elif message['role'] == 'user' ");
    reveal_strlit(" '[INST] ' + message['content'] + ' [/INST]' ");
    reveal_strlit(" elif message['role'] == 'assistant' ");
    reveal_strlit(" ' ' + message['content'] + ' ' + eos_token ");
    reveal_strlit(" endif ");
    reveal_strlit(" endfor ");
    reveal_strlit(
        "{{ bos_token }}{% for message in messages %}{% if message['role'] == 'system' %}{{ '<<SYS>>\\n' + message['content'] + '\\n<</SYS>>\\n\\n' }}{% elif message['role'] == 'user' %}{{ '[INST] ' + message['content'] + ' [/INST]' }}{% elif message['role'] == 'assistant' %}{{ ' ' + message['content'] + ' ' + eos_token }}{% endif %}{% endfor %}",
    );
    lemma_delimiter_chars();
    reveal_with_fuel(assembled, 11);
    assert(LLAMA2@ =~= assembled(llama2_parts()));
}

/// The token at the beginning is quiet.
proof fn lemma_bos_token()
    ensures
        quiet_from(" bos_token "@, 0),
{
    reveal_strlit(" bos_token ");
    reveal_with_fuel(quiet_from, 13);
    reveal_with_fuel(quote_end, 2);
}

/// The Llama 2 system section is quiet.
proof fn lemma_llama2_system()
    ensures
        quiet_from(" '<<SYS>>\\n' + message['content'] + '\\n<</SYS>>\\n\\n' "@, 0),
{
    reveal_strlit(" '<<SYS>>\\n' + message['content'] + '\\n<</SYS>>\\n\\n' ");
    reveal_with_fuel(quiet_from, 22);
    reveal_with_fuel(quote_end, 16);
}

/// A user turn in `[INST]` blocks is quiet.
proof fn lemma_inst_user()
    ensures
        quiet_from(" '[INST] ' + message['content'] + ' [/INST]' "@, 0),
{
    reveal_strlit(" '[INST] ' + message['content'] + ' [/INST]' ");
    reveal_with_fuel(quiet_from, 22);
    reveal_with_fuel(quote_end, 10);
}

/// An assistant turn of Llama 2 is quiet.
proof fn lemma_llama2_assistant()
    ensures
        quiet_from(" ' ' + message['content'] + ' ' + eos_token "@, 0),
{
    reveal_strlit(" ' ' + message['content'] + ' ' + eos_token ");
    reveal_with_fuel(quiet_from, 34);
    reveal_with_fuel(quote_end, 9);
}

/// The pieces of the Llama 2 preset nest.
proof fn lemma_llama2_nests()
    ensures
        nests(llama2_parts(), Seq::empty()),
{
    lemma_bos_token();
    lemma_for_messages();
    lemma_if_system();
    lemma_llama2_system();
    lemma_elif_user();
    lemma_inst_user();
    lemma_elif_assistant();
    lemma_llama2_assistant();
    lemma_endif();
    lemma_endfor();
    let parts = llama2_parts();
    let none = Seq::<Seq<char>>::empty();
    let looping = none.push("for"@);
    let choosing = looping.push("if"@);
    assert(nests(parts.skip(10), none));
    lemma_closes(parts, 9, none, "for"@);
    lemma_closes(parts, 8, looping, "if"@);
    lemma_passes(parts, 7, choosing);
    lemma_branches(parts, 6, looping);
    lemma_passes(parts, 5, choosing);
    lemma_branches(parts, 4, looping);
    lemma_passes(parts, 3, choosing);
    lemma_opens(parts, 2, looping, "if"@);
    lemma_opens(parts, 1, none, "for"@);
    lemma_passes(parts, 0, none);
    assert(parts.skip(0) =~= parts);
}

/// The pieces of the Llama 3 preset.
pub open spec fn llama3_parts() -> Seq<Part> {
    seq![
        Part::Expression(" bos_token "@),
        Part::Statement(" for message in messages "@),
        Part::Expression(
            " '<|start_header_id|>' + message['role'] + '<|end_header_id|>\\n\\n' + message['content'] + '<|eot_id|>' "@,
        ),
        Part::Statement(" endfor "@),
        Part::Statement(" if add_generation_prompt "@),
        Part::Expression(" '<|start_header_id|>assistant<|end_header_id|>\\n\\n' "@),
        Part::Statement(" endif "@),
    ]
}

/// The Llama 3 preset is the text of its pieces.
proof fn lemma_llama3_text()
    ensures
        LLAMA3@ == assembled(llama3_parts()),
        bounded_by_braces(LLAMA3@),
{
    reveal_strlit(" bos_token ");
    reveal_strlit(" for message in messages ");
    reveal_strlit(
        " '<|start_header_id|>' + message['role'] + '<|end_header_id|>\\n\\n' + message['content'] + '<|eot_id|>' ",
    );
    reveal_strlit(" endfor ");
    reveal_strlit(" if add_generation_prompt ");
    reveal_strlit(" '<|start_header_id|>assistant<|end_header_id|>\\n\\n' ");
    reveal_strlit(" endif ");
    reveal_strlit(
        "{{ bos_token }}{% for message in messages %}{{ '<|start_header_id|>' + message['role'] + '<|end_header_id|>\\n\\n' + message['content'] + '<|eot_id|>' }}{% endfor %}{% if add_generation_prompt %}{{ '<|start_header_id|>assistant<|end_header_id|>\\n\\n' }}{% endif %}",
    );
    lemma_delimiter_chars();
    reveal_with_fuel(assembled, 8);
    assert(LLAMA3@ =~= assembled(llama3_parts()));
}

/// A Llama 3 turn is quiet.
proof fn lemma_llama3_turn()
    ensures
        quiet_from(
            " '<|start_header_id|>' + message['role'] + '<|end_header_id|>\\n\\n' + message['content'] + '<|eot_id|>' "@,
            0,
        ),
{
    reveal_strlit(
        " '<|start_header_id|>' + message['role'] + '<|end_header_id|>\\n\\n' + message['content'] + '<|eot_id|>' ",
    );
    reveal_with_fuel(quiet_from, 39);
    reveal_with_fuel(quote_end, 23);
}

/// The Llama 3 generation prompt is quiet.
proof fn lemma_llama3_prompt()
    ensures
        quiet_from(" '<|start_header_id|>assistant<|end_header_id|>\\n\\n' "@, 0),
{
    reveal_strlit(" '<|start_header_id|>assistant<|end_header_id|>\\n\\n' ");
    reveal_with_fuel(quiet_from, 5);
    reveal_with_fuel(quote_end, 51);
}

/// The pieces of the Llama 3 preset nest.
proof fn lemma_llama3_nests()
    ensures
        nests(llama3_parts(), Seq::empty()),
{
    lemma_bos_token();
    lemma_for_messages();
    lemma_llama3_turn();
    lemma_endfor();
    lemma_if_prompt();
    lemma_llama3_prompt();
    lemma_endif();
    let parts = llama3_parts();
    let none = Seq::<Seq<char>>::empty();
    let looping = none.push("for"@);
    let asking = none.push("if"@);
    assert(nests(parts.skip(7), none));
    lemma_closes(parts, 6, none, "if"@);
    lemma_passes(parts, 5, asking);
    lemma_opens(parts, 4, none, "if"@);
    lemma_closes(parts, 3, none, "for"@);
    lemma_passes(parts, 2, looping);
    lemma_opens(parts, 1, none, "for"@);
    lemma_passes(parts, 0, none);
    assert(parts.skip(0) =~= parts);
}

/// The pieces of the Mistral preset.
pub open spec fn mistral_parts() -> Seq<Part> {
    seq![
        Part::Expression(" bos_token "@),
        Part::Statement(" for message in messages "@),
        Part::Statement(" if message['role'] == 'user' "@),
        Part::Expression(" '[INST] ' + message['content'] + ' [/INST]' "@),
        Part::Statement(" elif message['role'] == 'assistant' "@),
        Part::Expression(" message['content'] + eos_token "@),
        Part::Statement(" endif "@),
        Part::Statement(" endfor "@),
    ]
}

/// The Mistral preset is the text of its pieces.
proof fn lemma_mistral_text()
    ensures
        MISTRAL@ == assembled(mistral_parts()),
        bounded_by_braces(MISTRAL@),
{
    reveal_strlit(" bos_token ");
    reveal_strlit(" for message in messages ");
    reveal_strlit(" if message['role'] == 'user' ");
    reveal_strlit(" '[INST] ' + message['content'] + ' [/INST]' ");
    reveal_strlit(" elif message['role'] == 'assistant' ");
    reveal_strlit(" message['content'] + eos_token ");
    reveal_strlit(" endif ");
    reveal_strlit(" endfor ");
    reveal_strlit(
        "{{ bos_token }}{% for message in messages %}{% if message['role'] == 'user' %}{{ '[INST] ' + message['content'] + ' [/INST]' }}{% elif message['role'] == 'assistant' %}{{ message['content'] + eos_token }}{% endif %}{% endfor %}",
    );
    lemma_delimiter_chars();
    reveal_with_fuel(assembled, 9);
    assert(MISTRAL@ =~= assembled(mistral_parts()));
}

/// An assistant turn of Mistral is quiet.
proof fn lemma_mistral_assistant()
    ensures
        quiet_from(" message['content'] + eos_token "@, 0),
{
    reveal_strlit(" message['content'] + eos_token ");
    reveal_with_fuel(quiet_from, 26);
    reveal_with_fuel(quote_end, 9);
}

/// The pieces of the Mistral preset nest.
proof fn lemma_mistral_nests()
    ensures
        nests(mistral_parts(), Seq::empty()),
{
    lemma_bos_token();
    lemma_for_messages();
    lemma_if_user();
    lemma_inst_user();
    lemma_elif_assistant();
    lemma_mistral_assistant();
    lemma_endif();
    lemma_endfor();
    let parts = mistral_parts();
    let none = Seq::<Seq<char>>::empty();
    let looping = none.push("for"@);
    let choosing = looping.push("if"@);
    assert(nests(parts.skip(8), none));
    lemma_closes(parts, 7, none, "for"@);
    lemma_closes(parts, 6, looping, "if"@);
    lemma_passes(parts, 5, choosing);
    lemma_branches(parts, 4, looping);
    lemma_passes(parts, 3, choosing);
    lemma_opens(parts, 2, looping, "if"@);
    lemma_opens(parts, 1, none, "for"@);
    lemma_passes(parts, 0, none);
    assert(parts.skip(0) =~= parts);
}

/// The pieces of the Zephyr preset.
pub open spec fn zephyr_parts() -> Seq<Part> {
    seq![
        Part::Statement(" for message in messages "@),
        Part::Expression(
            " '<|' + message['role'] + '|>\\n' + message['content'] + eos_token + '\\n' "@,
        ),
        Part::Statement(" endfor "@),
        Part::Statement(" if add_generation_prompt "@),
        Part::Expression(" '<|assistant|>\\n' "@),
        Part::Statement(" endif "@),
    ]
}

/// The Zephyr preset is the text of its pieces.
proof fn lemma_zephyr_text()
    ensures
        ZEPHYR@ == assembled(zephyr_parts()),
        bounded_by_braces(ZEPHYR@),
{
    reveal_strlit(" for message in messages ");
    reveal_strlit(" '<|' + message['role'] + '|>\\n' + message['content'] + eos_token + '\\n' ");
    reveal_strlit(" endfor ");
    reveal_strlit(" if add_generation_prompt ");
    reveal_strlit(" '<|assistant|>\\n' ");
    reveal_strlit(" endif ");
    reveal_strlit(
        "{% for message in messages %}{{ '<|' + message['role'] + '|>\\n' + message['content'] + eos_token + '\\n' }}{% endfor %}{% if add_generation_prompt %}{{ '<|assistant|>\\n' }}{% endif %}",
    );
    lemma_delimiter_chars();
    reveal_with_fuel(assembled, 7);
    assert(ZEPHYR@ =~= assembled(zephyr_parts()));
}

/// A Zephyr turn is quiet.
proof fn lemma_zephyr_turn()
    ensures
        quiet_from(
            " '<|' + message['role'] + '|>\\n' + message['content'] + eos_token + '\\n' "@,
            0,
        ),
{
    reveal_strlit(" '<|' + message['role'] + '|>\\n' + message['content'] + eos_token + '\\n' ");
    reveal_with_fuel(quiet_from, 51);
    reveal_with_fuel(quote_end, 9);
}

/// The Zephyr generation prompt is quiet.
proof fn lemma_zephyr_prompt()
    ensures
        quiet_from(" '<|assistant|>\\n' "@, 0),
{
    reveal_strlit(" '<|assistant|>\\n' ");
    reveal_with_fuel(quiet_from, 5);
    reveal_with_fuel(quote_end, 17);
}

/// The pieces of the Zephyr preset nest.
proof fn lemma_zephyr_nests()
    ensures
        nests(zephyr_parts(), Seq::empty()),
{
    lemma_for_messages();
    lemma_zephyr_turn();
    lemma_endfor();
    lemma_if_prompt();
    lemma_zephyr_prompt();
    lemma_endif();
    let parts = zephyr_parts();
    let none = Seq::<Seq<char>>::empty();
    let looping = none.push("for"@);
    let asking = none.push("if"@);
    assert(nests(parts.skip(6), none));
    lemma_closes(parts, 5, none, "if"@);
    lemma_passes(parts, 4, asking);
    lemma_opens(parts, 3, none, "if"@);
    lemma_closes(parts, 2, none, "for"@);
    lemma_passes(parts, 1, looping);
    lemma_opens(parts, 0, none, "for"@);
    assert(parts.skip(0) =~= parts);
}

/// The pieces of the Alpaca preset.
pub open spec fn alpaca_parts() -> Seq<Part> {
    seq![
        Part::Statement(" for message in messages "@),
        Part::Statement(" if message['role'] == 'system' "@),
        Part::Expression(" message['content'] + '\\n\\n' "@),
        Part::Statement(" elif message['role'] == 'user' "@),
        Part::Expression(" '### Instruction:\\n' + message['content'] + '\\n\\n' "@),
        Part::Statement(" elif message['role'] == 'assistant' "@),
        Part::Expression(" '### Response:\\n' + message['content'] + '\\n\\n' "@),
        Part::Statement(" endif "@),
        Part::Statement(" endfor "@),
        Part::Statement(" if add_generation_prompt "@),
        Part::Expression(" '### Response:\\n' "@),
        Part::Statement(" endif "@),
    ]
}

/// The Alpaca preset is the text of its pieces.
proof fn lemma_alpaca_text()
    ensures
        ALPACA@ == assembled(alpaca_parts()),
        bounded_by_braces(ALPACA@),
{
    reveal_strlit(" for message in messages ");
    reveal_strlit(" if message['role'] == 'system' ");
    reveal_strlit(" message['content'] + '\\n\\n' ");
    reveal_strlit(" elif message['role'] == 'user' ");
    reveal_strlit(" '### Instruction:\\n' + message['content'] + '\\n\\n' ");
    reveal_strlit(" elif message['role'] == 'assistant' ");
    reveal_strlit(" '### Response:\\n' + message['content'] + '\\n\\n' ");
    reveal_strlit(" endif ");
    reveal_strlit(" endfor ");
    reveal_strlit(" if add_generation_prompt ");
    reveal_strlit(" '### Response:\\n' ");
    reveal_strlit(
        "{% for message in messages %}{% if message['role'] == 'system' %}{{ message['content'] + '\\n\\n' }}{% elif message['role'] == 'user' %}{{ '### Instruction:\\n' + message['content'] + '\\n\\n' }}{% elif message['role'] == 'assistant' %}{{ '### Response:\\n' + message['content'] + '\\n\\n' }}{% endif %}{% endfor %}{% if add_generation_prompt %}{{ '### Response:\\n' }}{% endif %}",
    );
    lemma_delimiter_chars();
    reveal_with_fuel(assembled, 13);
    assert(ALPACA@ =~= assembled(alpaca_parts()));
}

/// The Alpaca system section is quiet.
proof fn lemma_alpaca_system()
    ensures
        quiet_from(" message['content'] + '\\n\\n' "@, 0),
{
    reveal_strlit(" message['content'] + '\\n\\n' ");
    reveal_with_fuel(quiet_from, 18);
    reveal_with_fuel(quote_end, 9);
}

/// The Alpaca instruction section is quiet.
proof fn lemma_alpaca_user()
    ensures
        quiet_from(" '### Instruction:\\n' + message['content'] + '\\n\\n' "@, 0),
{
    reveal_strlit(" '### Instruction:\\n' + message['content'] + '\\n\\n' ");
    reveal_with_fuel(quiet_from, 22);
    reveal_with_fuel(quote_end, 20);
}

/// The Alpaca response section is quiet.
proof fn lemma_alpaca_assistant()
    ensures
        quiet_from(" '### Response:\\n' + message['content'] + '\\n\\n' "@, 0),
{
    reveal_strlit(" '### Response:\\n' + message['content'] + '\\n\\n' ");
    reveal_with_fuel(quiet_from, 22);
    reveal_with_fuel(quote_end, 17);
}

/// The Alpaca generation prompt is quiet.
proof fn lemma_alpaca_prompt()
    ensures
        quiet_from(" '### Response:\\n' "@, 0),
{
    reveal_strlit(" '### Response:\\n' ");
    reveal_with_fuel(quiet_from, 5);
    reveal_with_fuel(quote_end, 17);
}

/// The pieces of the Alpaca preset nest.
proof fn lemma_alpaca_nests()
    ensures
        nests(alpaca_parts(), Seq::empty()),
{
    lemma_for_messages();
    lemma_if_system();
    lemma_alpaca_system();
    lemma_elif_user();
    lemma_alpaca_user();
    lemma_elif_assistant();
    lemma_alpaca_assistant();
    lemma_endif();
    lemma_endfor();
    lemma_if_prompt();
    lemma_alpaca_prompt();
    let parts = alpaca_parts();
    let none = Seq::<Seq<char>>::empty();
    let looping = none.push("for"@);
    let asking = none.push("if"@);
    let choosing = looping.push("if"@);
    assert(nests(parts.skip(12), none));
    lemma_closes(parts, 11, none, "if"@);
    lemma_passes(parts, 10, asking);
    lemma_opens(parts, 9, none, "if"@);
    lemma_closes(parts, 8, none, "for"@);
    lemma_closes(parts, 7, looping, "if"@);
    lemma_passes(parts, 6, choosing);
    lemma_branches(parts, 5, looping);
    lemma_passes(parts, 4, choosing);
    lemma_branches(parts, 3, looping);
    lemma_passes(parts, 2, choosing);
    lemma_opens(parts, 1, looping, "if"@);
    lemma_opens(parts, 0, none, "for"@);
    assert(parts.skip(0) =~= parts);
}

// ---------------------------------------------------------------------------
// Laws
// ---------------------------------------------------------------------------

/// A text that starts and ends with a brace is not blank.
proof fn lemma_not_blank(s: Seq<char>)
    requires
        bounded_by_braces(s),
    ensures
        trim_end(trim_start(s)).len() > 0,
{
}

/// No listed preset has an error.
pub proof fn law_presets_have_no_errors(i: int)
    requires
        0 <= i < preset_list().len(),
    ensures
        preset_source(preset_list()[i].0) matches Some(source) && errors_among(findings(source))
            == 0,
{
    lemma_preset_names();
    let source = preset_source(preset_list()[i].0)->Some_0;
    if i == 0 {
        lemma_chatml_text();
        lemma_chatml_nests();
        lemma_not_blank(source);
        law_nested_templates_have_no_errors(chatml_parts());
    } else if i == 1 {
        lemma_llama2_text();
        lemma_llama2_nests();
        lemma_not_blank(source);
        law_nested_templates_have_no_errors(llama2_parts());
    } else if i == 2 {
        lemma_llama3_text();
        lemma_llama3_nests();
        lemma_not_blank(source);
        law_nested_templates_have_no_errors(llama3_parts());
    } else if i == 3 {
        lemma_mistral_text();
        lemma_mistral_nests();
        lemma_not_blank(source);
        law_nested_templates_have_no_errors(mistral_parts());
    } else if i == 4 {
        lemma_zephyr_text();
        lemma_zephyr_nests();
        lemma_not_blank(source);
        law_nested_templates_have_no_errors(zephyr_parts());
    } else {
        lemma_alpaca_text();
        lemma_alpaca_nests();
        lemma_not_blank(source);
        law_nested_templates_have_no_errors(alpaca_parts());
    }
}

/// The names of the presets differ in their length or a character.
proof fn lemma_preset_names()
    ensures
        "chatml"@.len() == 6 && "chatml"@[0] == 'c',
        "llama2"@.len() == 6 && "llama2"@[0] == 'l' && "llama2"@[5] == '2',
        "llama3"@.len() == 6 && "llama3"@[0] == 'l' && "llama3"@[5] == '3',
        "mistral"@.len() == 7,
        "zephyr"@.len() == 6 && "zephyr"@[0] == 'z',
        "alpaca"@.len() == 6 && "alpaca"@[0] == 'a',
{
    reveal_strlit("chatml");
    reveal_strlit("llama2");
    reveal_strlit("llama3");
    reveal_strlit("mistral");
    reveal_strlit("zephyr");
    reveal_strlit("alpaca");
}

/// The names of the presets are distinct.
pub proof fn law_preset_names_are_distinct(i: int, j: int)
    requires
        0 <= i < j < preset_list().len(),
    ensures
        preset_list()[i].0 != preset_list()[j].0,
{
    lemma_preset_names();
}

/// The presets are those that are listed, and no other name has a source.
pub proof fn law_presets_are_the_listed_ones(name: Seq<char>)
    ensures
        preset_source(name) is Some <==> exists|i: int|
            0 <= i < preset_list().len() && (#[trigger] preset_list()[i]).0 == name,
{
    let list = preset_list();
    assert(list[0].0 == "chatml"@ && list[1].0 == "llama2"@ && list[2].0 == "llama3"@);
    assert(list[3].0 == "mistral"@ && list[4].0 == "zephyr"@ && list[5].0 == "alpaca"@);
}

/// What each preset is: the turns of a chat and the prompt for the next one, with
/// the markers of the model family that it is named after.
pub proof fn law_what_the_presets_are(name: Seq<char>)
    ensures
        name == "chatml"@ ==> preset_source(name) == Some(assembled(chatml_parts())),
        name == "llama2"@ ==> preset_source(name) == Some(assembled(llama2_parts())),
        name == "llama3"@ ==> preset_source(name) == Some(assembled(llama3_parts())),
        name == "mistral"@ ==> preset_source(name) == Some(assembled(mistral_parts())),
        name == "zephyr"@ ==> preset_source(name) == Some(assembled(zephyr_parts())),
        name == "alpaca"@ ==> preset_source(name) == Some(assembled(alpaca_parts())),
{
    lemma_preset_names();
    if name == "chatml"@ {
        lemma_chatml_text();
    } else if name == "llama2"@ {
        lemma_llama2_text();
    } else if name == "llama3"@ {
        lemma_llama3_text();
    } else if name == "mistral"@ {
        lemma_mistral_text();
    } else if name == "zephyr"@ {
        lemma_zephyr_text();
    } else if name == "alpaca"@ {
        lemma_alpaca_text();
    }
}

} // verus!
