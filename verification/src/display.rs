//! What is shown: how sizes are rounded, how values are previewed on one line, and
//! what stands where in the view of a file.

use crate::bignum::exp2;
use crate::dump::{
    bytes_text, headroom_of, kv_line, lines, show_header, show_text, size_text, tensor_line,
};
use crate::editing::{
    law_bools_and_strings_are_coerced_to_themselves, law_integers_are_coerced_to_themselves,
};
use crate::exact::lemma_nearest;
use crate::float::lemma_bit_length_bound;
use crate::json::{hex_number, hex_value};
use crate::patch::coerced;
use crate::reparse::lemma_int_text_read;
use crate::text::{byte_len, dec, hex, int_text, is_control, join, pad_right, starts_at};
use crate::types::{
    escape_short_text, escaped_short, ggml_name, label_text, name_of_type, preview_text,
    shown_items, value_type, GgufType, SpecKv, SpecTensor, SpecValue,
};
use crate::verify::list_text;
use crate::wire::SpecHead;
use crate::writer::PAD_KEY;
use vstd::prelude::*;
use vstd::string::*;

verus! {

// ---------------------------------------------------------------------------
// Numbers
// ---------------------------------------------------------------------------

/// A number in hexadecimal is what its digits spell.
pub proof fn law_hexadecimal_digits(n: nat)
    ensures
        hex_number(hex(n)) == Some(n),
        hex(n).len() == 1 || hex(n)[0] != '0',
    decreases n,
{
    if n < 16 {
        let t = hex(n);
        assert(t.drop_last() =~= Seq::<char>::empty());
        assert(hex_number(Seq::<char>::empty()) == Some(0nat));
        assert(t.last() == t[0]);
        assert(hex_value(t[0]) == Some(n));
    } else {
        law_hexadecimal_digits(n / 16);
        let t = hex(n);
        assert(t.drop_last() =~= hex(n / 16));
        assert(hex_value(t.last()) == Some(n % 16));
        if hex(n / 16).len() == 1 {
            assert(n / 16 > 0);
            assert(n / 16 < 16) by {
                if n / 16 >= 16 {
                    assert(hex(n / 16) == hex(n / 16 / 16).push(hex(n / 16).last()));
                    law_hexadecimal_digits(n / 16 / 16);
                }
            }
        }
    }
}

/// A count is shown in the largest unit that it fills: bytes up to 1023, then KiB,
/// MiB, GiB and TiB of 1024 each.
pub open spec fn unit_of(bytes: nat, scale: nat, unit: Seq<char>) -> bool {
    ||| 1024 <= bytes < 1048576 && scale == 1024 && unit == "KiB"@
    ||| 1048576 <= bytes < 1073741824 && scale == 1048576 && unit == "MiB"@
    ||| 1073741824 <= bytes < 1099511627776 && scale == 1073741824 && unit == "GiB"@
    ||| 1099511627776 <= bytes && scale == 1099511627776 && unit == "TiB"@
}

/// A size is shown in its unit with one decimal, the one that is nearest.
pub proof fn law_sizes_are_rounded_to_tenths(bytes: nat, scale: nat, unit: Seq<char>, tenths: nat)
    requires
        bytes < 0x20_0000_0000_0000,
        unit_of(bytes, scale, unit),
        2 * (10 * bytes) < 2 * (tenths * scale) + scale,
        2 * (tenths * scale) < 2 * (10 * bytes) + scale,
    ensures
        size_text(bytes) == dec(tenths / 10) + "."@ + dec(tenths % 10) + " "@ + unit,
{
    lemma_nearest(10 * bytes, scale, tenths);
    assert(exp2(53) == 0x20_0000_0000_0000) by {
        reveal_with_fuel(exp2, 54);
    }
    lemma_bit_length_bound(bytes, 53);
}

/// Sizes below 1024 bytes are shown as they are.
pub proof fn law_small_sizes_are_exact(bytes: nat)
    ensures
        bytes < 1024 ==> size_text(bytes) == bytes_text(bytes),
        bytes_text(bytes) == if bytes == 1 {
            "1 byte"@
        } else {
            int_text(bytes as int) + " bytes"@
        },
{
}

// ---------------------------------------------------------------------------
// Values on one line
// ---------------------------------------------------------------------------

/// What is shown on one line holds no control character.
pub proof fn law_one_line(s: Seq<char>, k: int)
    requires
        0 <= k < escape_short_text(s).len(),
    ensures
        ({
            let n = escape_short_text(s)[k] as nat;
            n >= 0x20 && !(0x7f <= n <= 0x9f)
        }),
    decreases s.len(),
{
    let head = escape_short_text(s.drop_last());
    if k < head.len() {
        law_one_line(s.drop_last(), k);
    } else {
        lemma_escaped_short(s.last(), k - head.len());
    }
}

/// Hexadecimal digits are printable.
proof fn lemma_hex_printable(n: nat, k: int)
    requires
        0 <= k < hex(n).len(),
    ensures
        0x20 <= hex(n)[k] as nat && (hex(n)[k] as nat) < 0x7f,
    decreases n,
{
    if n >= 16 && k < hex(n / 16).len() {
        lemma_hex_printable(n / 16, k);
    }
}

/// No character is shown as a control character.
proof fn lemma_escaped_short(c: char, k: int)
    requires
        0 <= k < escaped_short(c).len(),
    ensures
        ({
            let n = escaped_short(c)[k] as nat;
            n >= 0x20 && !(0x7f <= n <= 0x9f)
        }),
{
    reveal_strlit("\\n");
    reveal_strlit("\\r");
    reveal_strlit("\\t");
    reveal_strlit("\\\"");
    reveal_strlit("\\u{");
    reveal_strlit("}");
    if c != '\n' && c != '\r' && c != '\t' && c != '"' && is_control(c) {
        let h = hex(c as nat);
        if 3 <= k < 3 + h.len() {
            lemma_hex_printable(c as nat, k - 3);
            assert(escaped_short(c)[k] == h[k - 3]);
        } else if k < 3 {
            assert(escaped_short(c)[k] == "\\u{"@[k]);
        } else {
            assert(escaped_short(c)[k] == '}');
        }
    }
}

/// Text without control characters and quotes is shown as it is.
pub proof fn law_plain_text_is_shown_as_it_is(s: Seq<char>)
    requires
        forall|i: int|
            0 <= i < s.len() ==> {
                let n = (#[trigger] s[i]) as u32;
                n >= 0x20 && !(0x7f <= n <= 0x9f) && s[i] != '"'
            },
    ensures
        escape_short_text(s) == s,
    decreases s.len(),
{
    if s.len() > 0 {
        law_plain_text_is_shown_as_it_is(s.drop_last());
        let c = s[s.len() - 1];
        assert(s.last() == c);
        assert(escape_short_text(s) =~= s);
    } else {
        assert(escape_short_text(s) =~= s);
    }
}

/// Line ends, tabs and quotes are shown behind a backslash, other control
/// characters by their code.
pub proof fn law_how_control_characters_are_shown(c: char)
    ensures
        escape_short_text(seq!['\n']) == seq!['\\', 'n'],
        escape_short_text(seq!['\r']) == seq!['\\', 'r'],
        escape_short_text(seq!['\t']) == seq!['\\', 't'],
        escape_short_text(seq!['"']) == seq!['\\', '"'],
        ((c as u32) < 0x20 || 0x7f <= c as u32 <= 0x9f) && c != '\n' && c != '\r' && c != '\t'
            ==> escape_short_text(seq![c]) == seq!['\\', 'u', '{'] + hex(c as nat) + seq!['}'],
{
    reveal_strlit("\\n");
    reveal_strlit("\\r");
    reveal_strlit("\\t");
    reveal_strlit("\\\"");
    reveal_strlit("\\u{");
    reveal_strlit("}");
    lemma_one_shown('\n');
    lemma_one_shown('\r');
    lemma_one_shown('\t');
    lemma_one_shown('"');
    lemma_one_shown(c);
    assert("\\n"@ =~= seq!['\\', 'n']);
    assert("\\r"@ =~= seq!['\\', 'r']);
    assert("\\t"@ =~= seq!['\\', 't']);
    assert("\\\""@ =~= seq!['\\', '"']);
    assert("\\u{"@ =~= seq!['\\', 'u', '{']);
    assert("}"@ =~= seq!['}']);
}

/// One character, shown.
proof fn lemma_one_shown(c: char)
    ensures
        escape_short_text(seq![c]) == escaped_short(c),
{
    let t = seq![c];
    assert(t.drop_last() =~= Seq::<char>::empty());
    assert(escape_short_text(t.drop_last()) =~= Seq::<char>::empty());
    assert(escape_short_text(t) =~= escaped_short(c));
}

/// Text is shown character by character.
pub proof fn law_shown_text_adds_up(a: Seq<char>, b: Seq<char>)
    ensures
        escape_short_text(a + b) == escape_short_text(a) + escape_short_text(b),
    decreases b.len(),
{
    if b.len() == 0 {
        assert(a + b =~= a);
        assert(escape_short_text(a) + escape_short_text(b) =~= escape_short_text(a));
    } else {
        law_shown_text_adds_up(a, b.drop_last());
        assert((a + b).drop_last() =~= a + b.drop_last());
        assert(escape_short_text(a + b) =~= escape_short_text(a) + escape_short_text(b));
    }
}

/// The preview of an integer or a bool is a text that stands for it; that of a
/// string is the string in quotes where it is short, and else its beginning and its
/// length in bytes; that of an array names the type and the number of its items and
/// shows the first three.
pub proof fn law_previews(v: SpecValue, max: nat)
    ensures
        !(v is F32 || v is F64 || v is Str || v is Array) ==> coerced(
            value_type(v),
            preview_text(v, max),
        ) == Ok::<SpecValue, Seq<char>>(v),
        v matches SpecValue::Str(s) ==> preview_text(v, max) == ({
            let shown = escape_short_text(s);
            if shown.len() <= max {
                "\""@ + shown + "\""@
            } else {
                "\""@ + shown.take(max as int) + "…\" ("@ + int_text(byte_len(s) as int)
                    + " bytes)"@
            }
        }),
        v matches SpecValue::Array(elem, items) ==> {
            let head = label_text(v) + "["@ + int_text(items.len() as int) + "]"@;
            &&& items.len() == 0 ==> preview_text(v, max) == head
            &&& items.len() == 1 ==> preview_text(v, max) == head + " {"@ + preview_text(
                items[0],
                24,
            ) + "}"@
            &&& items.len() == 2 ==> preview_text(v, max) == head + " {"@ + preview_text(
                items[0],
                24,
            ) + ", "@ + preview_text(items[1], 24) + "}"@
            &&& items.len() >= 3 ==> preview_text(v, max) == head + " {"@ + preview_text(
                items[0],
                24,
            ) + ", "@ + preview_text(items[1], 24) + ", "@ + preview_text(items[2], 24) + (
            if items.len() > 3 {
                ", …}"@
            } else {
                "}"@
            })
        },
{
    match v {
        SpecValue::U8(x) => {
            lemma_int_text_read(x as int);
            law_integers_are_coerced_to_themselves(int_text(x as int), x as int);
        },
        SpecValue::I8(x) => {
            lemma_int_text_read(x as int);
            law_integers_are_coerced_to_themselves(int_text(x as int), x as int);
        },
        SpecValue::U16(x) => {
            lemma_int_text_read(x as int);
            law_integers_are_coerced_to_themselves(int_text(x as int), x as int);
        },
        SpecValue::I16(x) => {
            lemma_int_text_read(x as int);
            law_integers_are_coerced_to_themselves(int_text(x as int), x as int);
        },
        SpecValue::U32(x) => {
            lemma_int_text_read(x as int);
            law_integers_are_coerced_to_themselves(int_text(x as int), x as int);
        },
        SpecValue::I32(x) => {
            lemma_int_text_read(x as int);
            law_integers_are_coerced_to_themselves(int_text(x as int), x as int);
        },
        SpecValue::U64(x) => {
            lemma_int_text_read(x as int);
            law_integers_are_coerced_to_themselves(int_text(x as int), x as int);
        },
        SpecValue::I64(x) => {
            lemma_int_text_read(x as int);
            law_integers_are_coerced_to_themselves(int_text(x as int), x as int);
        },
        SpecValue::Bool(x) => law_bools_and_strings_are_coerced_to_themselves(
            preview_text(v, max),
            x,
        ),
        SpecValue::Array(elem, items) => lemma_array_preview(elem, items, max),
        _ => {},
    }
}

/// The preview of an array.
proof fn lemma_array_preview(elem: GgufType, items: Seq<SpecValue>, max: nat)
    ensures
        ({
            let v = SpecValue::Array(elem, items);
            let head = label_text(v) + "["@ + int_text(items.len() as int) + "]"@;
            let shown = preview_text(v, max);
            &&& items.len() == 0 ==> shown == head
            &&& items.len() == 1 ==> shown == head + " {"@ + preview_text(items[0], 24) + "}"@
            &&& items.len() == 2 ==> shown == head + " {"@ + preview_text(items[0], 24) + ", "@
                + preview_text(items[1], 24) + "}"@
            &&& items.len() >= 3 ==> shown == head + " {"@ + preview_text(items[0], 24) + ", "@
                + preview_text(items[1], 24) + ", "@ + preview_text(items[2], 24) + (if items.len()
                > 3 {
                ", …}"@
            } else {
                "}"@
            })
        }),
{
    reveal_with_fuel(preview_text, 2);
    reveal_strlit(">");
    reveal_strlit("[");
    reveal_strlit(">[");
    reveal_strlit(", …");
    reveal_strlit("}");
    reveal_strlit(", …}");
    let v = SpecValue::Array(elem, items);
    let name = name_of_type(elem);
    let head = label_text(v) + "["@ + int_text(items.len() as int) + "]"@;
    assert(head =~= "array<"@ + name + ">["@ + dec(items.len()) + "]"@);
    let parts = shown_items(items);
    if items.len() == 1 {
        assert(parts.len() == 1);
        assert(parts[0] == preview_text(items[0], 24));
        assert(join(parts, ", "@) == parts[0]);
    } else if items.len() == 2 {
        assert(parts.len() == 2);
        lemma_join_two(parts, ", "@);
        assert(preview_text(v, max) =~= head + " {"@ + preview_text(items[0], 24) + ", "@
            + preview_text(items[1], 24) + "}"@);
    } else if items.len() >= 3 {
        assert(parts.len() == 3);
        lemma_join_three(parts, ", "@);
        if items.len() > 3 {
            assert(preview_text(v, max) =~= head + " {"@ + preview_text(items[0], 24) + ", "@
                + preview_text(items[1], 24) + ", "@ + preview_text(items[2], 24) + ", …}"@);
        } else {
            assert(preview_text(v, max) =~= head + " {"@ + preview_text(items[0], 24) + ", "@
                + preview_text(items[1], 24) + ", "@ + preview_text(items[2], 24) + "}"@);
        }
    }
}

/// Two texts, joined.
proof fn lemma_join_two(parts: Seq<Seq<char>>, sep: Seq<char>)
    requires
        parts.len() == 2,
    ensures
        join(parts, sep) == parts[0] + sep + parts[1],
{
    reveal_with_fuel(join, 3);
    assert(parts.drop_last()[0] == parts[0]);
}

/// Three texts, joined.
proof fn lemma_join_three(parts: Seq<Seq<char>>, sep: Seq<char>)
    requires
        parts.len() == 3,
    ensures
        join(parts, sep) == parts[0] + sep + parts[1] + sep + parts[2],
{
    lemma_join_two(parts.drop_last(), sep);
}

// ---------------------------------------------------------------------------
// The view of a file
// ---------------------------------------------------------------------------

/// The facts at the top of the view, each on its line.
pub proof fn law_header_of_the_view(h: SpecHead, file_len: nat, name: Seq<char>, tensors: bool)
    ensures
        ({
            let header = "file:       "@ + name + "\n"@ + "size:       "@ + size_text(file_len)
                + "\n"@ + "gguf:       v"@ + int_text(h.version as int) + " little-endian\n"@
                + "alignment:  "@ + int_text(h.alignment as int) + "\n"@ + "tensors:    "@
                + int_text(h.tensors.len() as int) + " ("@ + size_text(
                (if file_len >= h.data_start {
                    file_len - h.data_start
                } else {
                    0
                }) as nat,
            ) + " of tensor data)\n"@ + "data at:    0x"@ + hex(h.data_start as nat)
                + " (headroom for in-place edits: "@ + bytes_text(headroom_of(h)) + ")\n"@
                + "metadata:   "@ + int_text(h.kvs.len() as int) + " "@ + (if h.kvs.len() == 1 {
                "key"@
            } else {
                "keys"@
            }) + "\n"@;
            starts_at(show_text(h, file_len, name, tensors), 0, header)
        }),
{
    let header = show_header(h, file_len, name);
    let all = show_text(h, file_len, name, tensors);
    assert(all.subrange(0, header.len() as int) =~= header);
}

/// A text is one of the lines of a longer one.
pub open spec fn is_line(all: Seq<char>, line: Seq<char>) -> bool {
    exists|i: int| #[trigger] starts_at(all, i, line) && (i == 0 || all[i - 1] == '\n')
}

/// A line among others.
proof fn lemma_line(n: nat, f: spec_fn(int) -> Seq<char>, i: int)
    requires
        0 <= i < n,
        forall|k: int| 0 <= k < n ==> (#[trigger] f(k)).len() > 0 && f(k).last() == '\n',
    ensures
        lines(n, f).len() > 0,
        lines(n, f).last() == '\n',
        is_line(lines(n, f), f(i)),
    decreases n,
{
    let before = lines((n - 1) as nat, f);
    let all = lines(n, f);
    assert(all == before + f(n - 1));
    assert(f(n - 1).len() > 0);
    assert(all.last() == f(n - 1).last());
    if i == n - 1 {
        assert(all.subrange(before.len() as int, all.len() as int) =~= f(i));
        assert(starts_at(all, before.len() as int, f(i)));
        if n > 1 {
            lemma_line((n - 1) as nat, f, 0);
            assert(all[before.len() - 1] == before.last());
        }
    } else {
        lemma_line((n - 1) as nat, f, i);
        let p = choose|p: int|
            #[trigger] starts_at(before, p, f(i)) && (p == 0 || before[p - 1] == '\n');
        assert(all.subrange(p, p + f(i).len()) =~= before.subrange(p, p + f(i).len()));
        assert(starts_at(all, p, f(i)));
        if p > 0 {
            assert(all[p - 1] == before[p - 1]);
        }
    }
}

/// A line of a part is a line of the whole.
pub proof fn lemma_line_within(a: Seq<char>, part: Seq<char>, b: Seq<char>, line: Seq<char>)
    requires
        a.len() > 0,
        a.last() == '\n',
        is_line(part, line),
    ensures
        is_line(a + part + b, line),
{
    let all = a + part + b;
    let p = choose|p: int|
        #[trigger] starts_at(part, p, line) && (p == 0 || part[p - 1] == '\n');
    assert(all.subrange(a.len() + p, a.len() + p + line.len()) =~= part.subrange(
        p,
        p + line.len(),
    ));
    assert(starts_at(all, a.len() + p, line));
    if p == 0 {
        assert(all[a.len() - 1] == a.last());
    } else {
        assert(all[a.len() + p - 1] == part[p - 1]);
    }
}

/// The header ends with a line end.
proof fn lemma_header_ends(h: SpecHead, file_len: nat, name: Seq<char>)
    ensures
        show_header(h, file_len, name).len() > 0,
        show_header(h, file_len, name).last() == '\n',
{
    reveal_strlit("\n");
    let s = show_header(h, file_len, name);
    assert("\n"@.len() == 1 && "\n"@[0] == '\n');
    assert(s[s.len() - 1] == "\n"@[0]);
}

/// The view has a line for each metadata pair.
pub proof fn law_every_pair_is_shown(
    h: SpecHead,
    file_len: nat,
    name: Seq<char>,
    tensors: bool,
    i: int,
)
    requires
        0 <= i < h.kvs.len(),
    ensures
        is_line(show_text(h, file_len, name, tensors), kv_line(h.kvs[i])),
{
    let f = |i: int| kv_line(h.kvs[i]);
    let header = show_header(h, file_len, name);
    let part = lines(h.kvs.len(), f);
    let rest = if tensors {
        "tensor list:\n"@ + lines(h.tensors.len(), |i: int| tensor_line(h.tensors[i]))
    } else {
        Seq::empty()
    };
    assert forall|k: int| 0 <= k < h.kvs.len() implies (#[trigger] f(k)).len() > 0 && f(k).last()
        == '\n' by {
        lemma_pair_line_ends(h.kvs[k]);
    }
    lemma_line(h.kvs.len(), f, i);
    lemma_header_ends(h, file_len, name);
    assert(show_text(h, file_len, name, tensors) == header + part + rest);
    assert(f(i) == kv_line(h.kvs[i]));
    lemma_line_within(header, part, rest, kv_line(h.kvs[i]));
}

/// The line of a pair ends with a line end.
proof fn lemma_pair_line_ends(kv: SpecKv)
    ensures
        kv_line(kv).len() > 0,
        kv_line(kv).last() == '\n',
{
    reveal_strlit("\n");
    reveal_strlit(" of managed headroom)\n");
    let s = kv_line(kv);
    let tail = " of managed headroom)\n"@;
    assert(tail.len() == 22 && tail[21] == '\n');
    assert("\n"@.len() == 1 && "\n"@[0] == '\n');
    if kv.value is Str && kv.key == PAD_KEY@ {
        assert(s[s.len() - 1] == tail[21]);
    } else {
        assert(s[s.len() - 1] == "\n"@[0]);
    }
}

/// The line of a tensor ends with a line end.
proof fn lemma_tensor_line_ends(t: SpecTensor)
    ensures
        tensor_line(t).len() > 0,
        tensor_line(t).last() == '\n',
{
    reveal_strlit("\n");
    let s = tensor_line(t);
    assert("\n"@.len() == 1 && "\n"@[0] == '\n');
    assert(s[s.len() - 1] == "\n"@[0]);
}

/// The view has a line for each tensor, where they are asked for.
pub proof fn law_every_tensor_is_shown(h: SpecHead, file_len: nat, name: Seq<char>, i: int)
    requires
        0 <= i < h.tensors.len(),
    ensures
        is_line(show_text(h, file_len, name, true), tensor_line(h.tensors[i])),
{
    reveal_strlit("tensor list:\n");
    let pair = |i: int| kv_line(h.kvs[i]);
    let f = |i: int| tensor_line(h.tensors[i]);
    let pairs = lines(h.kvs.len(), pair);
    let title = "tensor list:\n"@;
    let header = show_header(h, file_len, name);
    let part = lines(h.tensors.len(), f);
    assert forall|k: int| 0 <= k < h.tensors.len() implies (#[trigger] f(k)).len() > 0 && f(
        k,
    ).last() == '\n' by {
        lemma_tensor_line_ends(h.tensors[k]);
    }
    lemma_line(h.tensors.len(), f, i);
    let before = header + pairs + title;
    assert(title.len() == 13 && title[12] == '\n');
    assert(before.last() == title[12]);
    assert(f(i) == tensor_line(h.tensors[i]));
    lemma_line_within(before, part, Seq::empty(), tensor_line(h.tensors[i]));
    assert(show_text(h, file_len, name, true) =~= before + part + Seq::<char>::empty());
}

/// What stands where in the line of a pair: its key, the label of its type and its
/// preview, in columns as long as they are wide enough.
pub proof fn law_line_of_a_pair(kv: SpecKv)
    requires
        kv.key != "chisel.pad"@ || !(kv.value is Str),
    ensures
        ({
            let line = kv_line(kv);
            let label = label_text(kv.value);
            let key_end = if kv.key.len() > 36 {
                kv.key.len() as int
            } else {
                36
            };
            let label_end = if label.len() > 13 {
                label.len() as int
            } else {
                13
            };
            &&& line.len() == key_end + label_end + preview_text(kv.value, 60).len() + 5
            &&& line.subrange(2, 2 + kv.key.len() as int) == kv.key
            &&& line.subrange(key_end + 3, key_end + 3 + label.len()) == label
            &&& line.subrange(key_end + label_end + 4, line.len() - 1) == preview_text(kv.value, 60)
            &&& line.last() == '\n'
        }),
{
    reveal_strlit("  ");
    reveal_strlit(" ");
    reveal_strlit("\n");
    lemma_pair_line_ends(kv);
    let line = kv_line(kv);
    let label = label_text(kv.value);
    let shown = preview_text(kv.value, 60);
    assert("  "@.len() == 2 && " "@.len() == 1 && "\n"@.len() == 1);
    let a = pad_right(kv.key, 36);
    let b = pad_right(label, 13);
    assert(line == "  "@ + a + " "@ + b + " "@ + shown + "\n"@);
    assert(line.subrange(2, 2 + kv.key.len() as int) =~= kv.key);
    assert(line.subrange(a.len() + 3int, a.len() + 3int + label.len()) =~= label);
    assert(line.subrange(a.len() + b.len() + 4int, line.len() - 1) =~= shown);
}

/// What stands where in the line of a tensor: its name, the name of its type, its
/// dimensions and its offset.
pub proof fn law_line_of_a_tensor(t: SpecTensor)
    ensures
        ({
            let line = tensor_line(t);
            let name_end = if t.name.len() > 28 {
                t.name.len() as int
            } else {
                28
            };
            let ty = ggml_name(t.type_code);
            let type_end = if ty.len() > 8 {
                ty.len() as int
            } else {
                8
            };
            &&& line.subrange(2, 2 + t.name.len() as int) == t.name
            &&& line.subrange(name_end + 3, name_end + 3 + ty.len()) == ty
            &&& line.skip(name_end + type_end + 4) == list_text(t.dims) + "  offset 0x"@ + hex(
                t.offset as nat,
            ) + "\n"@
        }),
{
    reveal_strlit("  ");
    reveal_strlit(" ");
    assert("  "@.len() == 2 && " "@.len() == 1);
    let line = tensor_line(t);
    let ty = ggml_name(t.type_code);
    let a = pad_right(t.name, 28);
    let b = pad_right(ty, 8);
    let rest = list_text(t.dims) + "  offset 0x"@ + hex(t.offset as nat) + "\n"@;
    assert(line =~= "  "@ + a + " "@ + b + " "@ + rest);
    assert(line.subrange(2, 2 + t.name.len() as int) =~= t.name);
    assert(line.subrange(a.len() + 3int, a.len() + 3int + ty.len()) =~= ty);
    assert(line.skip(a.len() + b.len() + 4int) =~= rest);
}

/// Numbers in a list stand in order, with commas between them.
pub proof fn law_lists_of_numbers(dims: Seq<u64>, n: u64)
    ensures
        list_text(Seq::empty()) == "[]"@,
        list_text(seq![n]) == "["@ + int_text(n as int) + "]"@,
        dims.len() > 0 ==> list_text(dims.push(n)) == list_text(dims).drop_last() + ", "@ + int_text(
            n as int,
        ) + "]"@,
{
    reveal_strlit("[");
    reveal_strlit("]");
    reveal_strlit("[]");
    assert(list_text(Seq::empty()) =~= "[]"@) by {
        assert(join(Seq::new(0, |i: int| dec(Seq::<u64>::empty()[i] as nat)), ", "@).len() == 0);
    }
    let one = Seq::new(1, |i: int| dec(seq![n][i] as nat));
    assert(one[0] == dec(n as nat));
    assert(list_text(seq![n]) =~= "["@ + int_text(n as int) + "]"@);
    if dims.len() > 0 {
        let all = Seq::new(dims.push(n).len(), |i: int| dec(dims.push(n)[i] as nat));
        let most = Seq::new(dims.len(), |i: int| dec(dims[i] as nat));
        assert(all.drop_last() =~= most);
        assert(all.last() == dec(n as nat));
        assert(join(all, ", "@) == join(most, ", "@) + ", "@ + dec(n as nat));
        assert(list_text(dims).drop_last() =~= "["@ + join(most, ", "@));
        assert(list_text(dims.push(n)) =~= list_text(dims).drop_last() + ", "@ + int_text(n as int)
            + "]"@);
    }
}

} // verus!
