//! Rendering: the pretty JSON `dump`, the human-readable `show` view, and
//! the shared size formatting helpers. Everything returns strings so it is
//! trivially unit-testable.

use crate::bignum::exp2;
use crate::float::{bit_length, nearest, widen, widened};
use crate::json::{
    encode_pretty, items_view, lemma_arr_view, lemma_obj_view, pairs_view, render, Json, SpecJson,
};
use crate::reader::Gguf;
use crate::text::{byte_len, dec, hex, pad_right, push_dec, push_hex, push_padded, str_eq, str_len};
use crate::types::{
    ggml_name, ggml_type_name, label_text, lemma_array_view, preview_text, tensor_bytes,
    values_view, GgufValue, KvPair, SpecKv, SpecTensor, SpecValue, TensorInfo,
};
use crate::verify::{data_length, list_string, list_text};
use crate::wire::{enc_head, SpecHead};
use crate::writer::{serialize_head, strip_pad, stripped, PAD_KEY};
use vstd::prelude::*;
use vstd::string::*;

verus! {

// ---------------------------------------------------------------------------
// JSON
// ---------------------------------------------------------------------------

/// A metadata value as JSON: integers stay exact, arrays convert element-wise.
pub open spec fn json_of(v: SpecValue) -> SpecJson
    decreases v,
{
    match v {
        SpecValue::U8(x) => SpecJson::Int(x as int),
        SpecValue::I8(x) => SpecJson::Int(x as int),
        SpecValue::U16(x) => SpecJson::Int(x as int),
        SpecValue::I16(x) => SpecJson::Int(x as int),
        SpecValue::U32(x) => SpecJson::Int(x as int),
        SpecValue::I32(x) => SpecJson::Int(x as int),
        SpecValue::U64(x) => SpecJson::Int(x as int),
        SpecValue::I64(x) => SpecJson::Int(x as int),
        SpecValue::F32(x) => SpecJson::Float(widened(x)),
        SpecValue::F64(x) => SpecJson::Float(x),
        SpecValue::Bool(x) => SpecJson::Bool(x),
        SpecValue::Str(s) => SpecJson::Str(s),
        SpecValue::Array(_, items) => SpecJson::Arr(
            Seq::new(
                items.len(),
                |i: int|
                    if 0 <= i < items.len() {
                        json_of(items[i])
                    } else {
                        SpecJson::Null
                    },
            ),
        ),
    }
}

/// Convert a metadata value into JSON. Integers stay exact (`i128` carrier);
/// arrays convert element-wise.
pub fn value_json(v: &GgufValue) -> (r: Json)
    ensures
        r@ == json_of(v@),
    decreases v,
{
    match v {
        GgufValue::U8(x) => Json::Int(*x as i128),
        GgufValue::I8(x) => Json::Int(*x as i128),
        GgufValue::U16(x) => Json::Int(*x as i128),
        GgufValue::I16(x) => Json::Int(*x as i128),
        GgufValue::U32(x) => Json::Int(*x as i128),
        GgufValue::I32(x) => Json::Int(*x as i128),
        GgufValue::U64(x) => Json::Int(*x as i128),
        GgufValue::I64(x) => Json::Int(*x as i128),
        GgufValue::F32(x) => Json::Float(widen(*x)),
        GgufValue::F64(x) => Json::Float(*x),
        GgufValue::Bool(x) => Json::Bool(*x),
        GgufValue::Str(s) => Json::Str(s.clone()),
        GgufValue::Array(elem, items) => {
            let ghost all = values_view(items@);
            let mut out: Vec<Json> = Vec::new();
            let mut i: usize = 0;
            while i < items.len()
                invariant
                    v matches GgufValue::Array(_, its) && its == items,
                    i <= items@.len(),
                    out@.len() == i,
                    all == values_view(items@),
                    forall|j: int| 0 <= j < i ==> (#[trigger] out@[j])@ == json_of(all[j]),
                decreases items@.len() - i,
            {
                let item = value_json(&items[i]);
                out.push(item);
                i += 1;
            }
            proof {
                lemma_array_view(*elem, *items);
                lemma_arr_view(out);
                reveal_with_fuel(json_of, 2);
                assert forall|j: int| 0 <= j < all.len() implies items_view(out@)[j]
                    == json_of(all[j]) by {
                    assert(out@[j]@ == json_of(all[j]));
                }
                assert(items_view(out@) =~= json_of(v@)->Arr_0);
            }
            Json::Arr(out)
        },
    }
}

/// A metadata pair as a member of the dump.
pub open spec fn kv_member(kv: SpecKv) -> (Seq<char>, SpecJson) {
    (
        kv.key,
        SpecJson::Obj(
            seq![
                ("type"@, SpecJson::Str(label_text(kv.value))),
                ("value"@, json_of(kv.value)),
            ],
        ),
    )
}

/// A tensor descriptor in the dump.
pub open spec fn tensor_json(t: SpecTensor) -> SpecJson {
    SpecJson::Obj(
        seq![
            ("name"@, SpecJson::Str(t.name)),
            ("type"@, SpecJson::Str(ggml_name(t.type_code))),
            (
                "dims"@,
                SpecJson::Arr(Seq::new(t.dims.len(), |i: int| SpecJson::Int(t.dims[i] as int))),
            ),
            ("offset"@, SpecJson::Int(t.offset as int)),
            (
                "bytes"@,
                match tensor_bytes(t) {
                    Some(b) => SpecJson::Int(b as int),
                    None => SpecJson::Null,
                },
            ),
        ],
    )
}

/// The complete head as a JSON document.
pub open spec fn dump_of(h: SpecHead, file_len: nat) -> SpecJson {
    SpecJson::Obj(
        seq![
            ("gguf_version"@, SpecJson::Int(h.version as int)),
            ("alignment"@, SpecJson::Int(h.alignment as int)),
            ("data_start"@, SpecJson::Int(h.data_start)),
            ("data_bytes"@, SpecJson::Int(data_length(h, file_len) as int)),
            (
                "metadata"@,
                SpecJson::Obj(Seq::new(h.kvs.len(), |i: int| kv_member(h.kvs[i]))),
            ),
            (
                "tensors"@,
                SpecJson::Arr(Seq::new(h.tensors.len(), |i: int| tensor_json(h.tensors[i]))),
            ),
        ],
    )
}

/// A metadata pair as a member of the dump.
fn kv_json(kv: &KvPair) -> (r: (String, Json))
    ensures
        (r.0@, r.1@) == kv_member(kv@),
{
    let mut fields: Vec<(String, Json)> = Vec::new();
    fields.push(("type".to_string(), Json::Str(kv.value.type_label())));
    fields.push(("value".to_string(), value_json(&kv.value)));
    proof {
        lemma_obj_view(fields);
        assert(pairs_view(fields@) =~= seq![
            ("type"@, SpecJson::Str(label_text(kv@.value))),
            ("value"@, json_of(kv@.value)),
        ]);
    }
    (kv.key.clone(), Json::Obj(fields))
}

/// A tensor descriptor in the dump.
fn tensor_to_json(t: &TensorInfo) -> (r: Json)
    ensures
        r@ == tensor_json(t@),
{
    let mut dims: Vec<Json> = Vec::new();
    let mut i: usize = 0;
    while i < t.dims.len()
        invariant
            i <= t.dims@.len(),
            dims@.len() == i,
            forall|j: int|
                0 <= j < i ==> (#[trigger] dims@[j])@ == SpecJson::Int(t.dims@[j] as int),
        decreases t.dims@.len() - i,
    {
        dims.push(Json::Int(t.dims[i] as i128));
        i += 1;
    }
    let ghost wanted = Seq::new(t.dims@.len(), |j: int| SpecJson::Int(t.dims@[j] as int));
    proof {
        lemma_arr_view(dims);
        assert forall|j: int| 0 <= j < wanted.len() implies items_view(dims@)[j] == wanted[j] by {
            assert(dims@[j]@ == wanted[j]);
        }
        assert(items_view(dims@) =~= wanted);
    }
    let bytes = match t.byte_size() {
        Some(b) => Json::Int(b as i128),
        None => Json::Null,
    };
    let mut fields: Vec<(String, Json)> = Vec::new();
    fields.push(("name".to_string(), Json::Str(t.name.clone())));
    fields.push(("type".to_string(), Json::Str(ggml_type_name(t.type_code))));
    fields.push(("dims".to_string(), Json::Arr(dims)));
    fields.push(("offset".to_string(), Json::Int(t.offset as i128)));
    fields.push(("bytes".to_string(), bytes));
    proof {
        lemma_obj_view(fields);
        assert(pairs_view(fields@) =~= tensor_json(t@)->Obj_0);
    }
    Json::Obj(fields)
}

/// The complete head as a JSON document.
fn dump_value(g: &Gguf) -> (r: Json)
    ensures
        r@ == dump_of(g@, g.file_len as nat),
{
    let mut metadata: Vec<(String, Json)> = Vec::new();
    let mut i: usize = 0;
    let ghost wanted_kvs = Seq::new(g@.kvs.len(), |j: int| kv_member(g@.kvs[j]));
    assert(pairs_view(metadata@) =~= wanted_kvs.take(0));
    while i < g.kvs.len()
        invariant
            i <= g.kvs@.len(),
            wanted_kvs == Seq::new(g@.kvs.len(), |j: int| kv_member(g@.kvs[j])),
            pairs_view(metadata@) == wanted_kvs.take(i as int),
        decreases g.kvs@.len() - i,
    {
        let pair = kv_json(&g.kvs[i]);
        let ghost before = pairs_view(metadata@);
        metadata.push(pair);
        assert(pairs_view(metadata@) =~= before.push((pair.0@, pair.1@)));
        i += 1;
        assert(pairs_view(metadata@) =~= wanted_kvs.take(i as int));
    }
    let mut tensors: Vec<Json> = Vec::new();
    let mut k: usize = 0;
    let ghost wanted_tensors = Seq::new(g@.tensors.len(), |j: int| tensor_json(g@.tensors[j]));
    assert(items_view(tensors@) =~= wanted_tensors.take(0));
    while k < g.tensors.len()
        invariant
            k <= g.tensors@.len(),
            wanted_tensors == Seq::new(g@.tensors.len(), |j: int| tensor_json(g@.tensors[j])),
            items_view(tensors@) == wanted_tensors.take(k as int),
        decreases g.tensors@.len() - k,
    {
        let t = tensor_to_json(&g.tensors[k]);
        let ghost before = items_view(tensors@);
        tensors.push(t);
        assert(items_view(tensors@) =~= before.push(t@));
        k += 1;
        assert(items_view(tensors@) =~= wanted_tensors.take(k as int));
    }
    proof {
        lemma_obj_view(metadata);
        lemma_arr_view(tensors);
        assert(wanted_kvs.take(i as int) =~= wanted_kvs);
        assert(wanted_tensors.take(k as int) =~= wanted_tensors);
    }
    let mut doc: Vec<(String, Json)> = Vec::new();
    doc.push(("gguf_version".to_string(), Json::Int(g.version as i128)));
    doc.push(("alignment".to_string(), Json::Int(g.alignment as i128)));
    doc.push(("data_start".to_string(), Json::Int(g.data_start as i128)));
    doc.push(("data_bytes".to_string(), Json::Int(g.data_len() as i128)));
    doc.push(("metadata".to_string(), Json::Obj(metadata)));
    doc.push(("tensors".to_string(), Json::Arr(tensors)));
    proof {
        lemma_obj_view(doc);
        assert(pairs_view(doc@) =~= dump_of(g@, g.file_len as nat)->Obj_0);
    }
    Json::Obj(doc)
}

/// The complete head as a pretty-printed JSON document.
pub fn dump_json(g: &Gguf) -> (r: String)
    ensures
        r@ == render(dump_of(g@, g.file_len as nat), Seq::empty(), true),
{
    encode_pretty(&dump_value(g))
}

// ---------------------------------------------------------------------------
// Sizes
// ---------------------------------------------------------------------------

/// `n`, rounded to 53 significant binary digits (ties to even).
pub open spec fn rounded_53(n: nat) -> nat {
    let l = bit_length(n);
    if l <= 53 {
        n
    } else {
        nearest(n, exp2((l - 53) as nat)) * exp2((l - 53) as nat)
    }
}

/// `bytes / scale` with one decimal, and a unit. The quotient is taken from the
/// count rounded to 53 binary digits, and rounded to tenths (ties to even).
pub open spec fn scaled_text(bytes: nat, scale: nat, unit: Seq<char>) -> Seq<char> {
    let tenths = nearest(10 * rounded_53(bytes), scale);
    dec(tenths / 10) + "."@ + dec(tenths % 10) + " "@ + unit
}

/// A byte count in its largest fitting unit; below 1 KiB exactly.
pub open spec fn size_text(bytes: nat) -> Seq<char> {
    if bytes >= 0x100_0000_0000 {
        scaled_text(bytes, 0x100_0000_0000, "TiB"@)
    } else if bytes >= 0x4000_0000 {
        scaled_text(bytes, 0x4000_0000, "GiB"@)
    } else if bytes >= 0x10_0000 {
        scaled_text(bytes, 0x10_0000, "MiB"@)
    } else if bytes >= 0x400 {
        scaled_text(bytes, 0x400, "KiB"@)
    } else {
        bytes_text(bytes)
    }
}

/// An exact byte count with a grammatical unit.
pub open spec fn bytes_text(bytes: nat) -> Seq<char> {
    if bytes == 1 {
        "1 byte"@
    } else {
        dec(bytes) + " bytes"@
    }
}

/// The integer nearest to `a / b`; of two that are equally near, the even one.
fn divide_nearest(a: u128, b: u128) -> (r: u128)
    requires
        0 < b <= 0xffff_ffff_ffff_ffff,
        a <= 0xf_ffff_ffff_ffff_ffff_ffff,
    ensures
        r == nearest(a as nat, b as nat),
        r <= a / b + 1,
{
    let q: u128 = a / b;
    let rem: u128 = a % b;
    proof {
        assert(q <= a) by (nonlinear_arith)
            requires
                q == a / b,
                b > 0,
        ;
    }
    if 2 * rem < b || (2 * rem == b && q % 2 == 0) {
        q
    } else {
        q + 1
    }
}

/// `n`, rounded to 53 significant binary digits (ties to even).
fn round_53(n: u64) -> (r: u128)
    ensures
        r == rounded_53(n as nat),
        r <= 0x1_0000_0000_0000_0000,
{
    let mut l: u32 = 0;
    let mut rest: u64 = n;
    proof {
        crate::float::lemma_exp2_values();
        assert(exp2(64) == 2 * exp2(63));
        crate::float::lemma_bit_length_bound(n as nat, 64);
    }
    while rest > 0
        invariant
            bit_length(n as nat) == l + bit_length(rest as nat),
            bit_length(n as nat) <= 64,
        decreases rest,
    {
        rest = rest / 2;
        l += 1;
    }
    if l <= 53 {
        return n as u128;
    }
    let mut unit: u128 = 1;
    let mut i: u32 = 53;
    proof {
        crate::float::lemma_exp2_values();
    }
    while i < l
        invariant
            53 <= i <= l <= 64,
            unit == exp2((i - 53) as nat),
            0 < unit <= 0x800,
            i < 64 ==> unit <= 0x400,
        decreases l - i,
    {
        unit = 2 * unit;
        i += 1;
        proof {
            crate::float::lemma_exp2_mono((i - 53) as nat, 11);
            reveal_with_fuel(exp2, 12);
            assert(exp2(11) == 0x800);
            assert(exp2(10) == 0x400);
            if i < 64 {
                crate::float::lemma_exp2_mono((i - 53) as nat, 10);
            }
        }
    }
    let q: u128 = divide_nearest(n as u128, unit);
    proof {
        let e = exp2((l - 53) as nat);
        crate::float::lemma_exp2_pos((l - 53) as nat);
        assert(q * unit <= 0x1_0000_0000_0000_0000) by {
            crate::float::lemma_exp2_add((l - 53) as nat, (64 - (l - 53)) as nat);
            lemma_nearest_multiple(n as nat, e, exp2((64 - (l - 53)) as nat));
        }
    }
    q * unit
}

/// Rounding to a multiple stays within a bound that is one.
proof fn lemma_nearest_multiple(a: nat, b: nat, k: nat)
    requires
        b > 0,
        a <= b * k,
    ensures
        nearest(a, b) * b <= b * k,
{
    vstd::arithmetic::div_mod::lemma_fundamental_div_mod(a as int, b as int);
    let q = a / b;
    let r = a % b;
    assert(a == b * q + r);
    assert(q <= k) by (nonlinear_arith)
        requires
            b * q <= b * k,
            b > 0,
    ;
    if q == k {
        assert(r == 0) by (nonlinear_arith)
            requires
                b * q + r <= b * k,
                q == k,
                r >= 0,
        ;
        assert(q * b == b * k) by (nonlinear_arith)
            requires
                q == k,
        ;
    } else {
        assert(q * b <= b * k && (q + 1) * b <= b * k) by (nonlinear_arith)
            requires
                q + 1 <= k,
        ;
    }
}

/// `bytes / scale` with one decimal, and a unit.
fn scaled(bytes: u64, scale: u64, unit: &str) -> (r: String)
    requires
        scale > 0,
    ensures
        r@ == scaled_text(bytes as nat, scale as nat, unit@),
{
    let b: u128 = round_53(bytes);
    let tenths: u128 = divide_nearest(10 * b, scale as u128);
    let mut out = String::new();
    push_dec(&mut out, tenths / 10);
    assert(out@ =~= dec((tenths / 10) as nat));
    out.append(".");
    push_dec(&mut out, tenths % 10);
    out.append(" ");
    out.append(unit);
    out
}

/// `1234` → `"1.2 KiB"`, etc. Bytes below 1 KiB are printed exactly.
pub fn fmt_size(bytes: u64) -> (r: String)
    ensures
        r@ == size_text(bytes as nat),
{
    if bytes >= 0x100_0000_0000 {
        scaled(bytes, 0x100_0000_0000, "TiB")
    } else if bytes >= 0x4000_0000 {
        scaled(bytes, 0x4000_0000, "GiB")
    } else if bytes >= 0x10_0000 {
        scaled(bytes, 0x10_0000, "MiB")
    } else if bytes >= 0x400 {
        scaled(bytes, 0x400, "KiB")
    } else {
        fmt_bytes(bytes)
    }
}

/// Exact byte count with a grammatical unit: `1 byte`, `42 bytes`.
pub fn fmt_bytes(bytes: u64) -> (r: String)
    ensures
        r@ == bytes_text(bytes as nat),
{
    if bytes == 1 {
        "1 byte".to_string()
    } else {
        let mut s = String::new();
        push_dec(&mut s, bytes as u128);
        assert(s@ =~= dec(bytes as nat));
        s.append(" bytes");
        s
    }
}

// ---------------------------------------------------------------------------
// The show view
// ---------------------------------------------------------------------------

/// How many bytes the metadata could still grow while staying in place.
pub open spec fn headroom_of(h: SpecHead) -> nat {
    let needed = enc_head(h.version, stripped(h.kvs), h.tensors).len();
    if h.data_start >= needed {
        (h.data_start - needed) as nat
    } else {
        0
    }
}

/// How many bytes the metadata could still grow while staying in place:
/// the distance between the pad-stripped head end and the data offset.
pub fn headroom(g: &Gguf) -> (r: u64)
    ensures
        r == headroom_of(g@),
{
    let bare = strip_pad(&g.kvs);
    let end0: u64 = serialize_head(g.version, &bare, &g.tensors).len() as u64;
    if g.data_start >= end0 {
        g.data_start - end0
    } else {
        0
    }
}

/// Lines `0..n`, one after the other.
pub open spec fn lines(n: nat, f: spec_fn(int) -> Seq<char>) -> Seq<char>
    decreases n,
{
    if n == 0 {
        Seq::empty()
    } else {
        lines((n - 1) as nat, f) + f(n - 1)
    }
}

/// The line about a metadata pair.
pub open spec fn kv_line(kv: SpecKv) -> Seq<char> {
    match kv.value {
        SpecValue::Str(s) if kv.key == PAD_KEY@ => "  "@ + pad_right(kv.key, 36) + " "@ + pad_right(
            "string"@,
            13,
        ) + " ("@ + bytes_text(byte_len(s)) + " of managed headroom)\n"@,
        _ => "  "@ + pad_right(kv.key, 36) + " "@ + pad_right(label_text(kv.value), 13) + " "@
            + preview_text(kv.value, 60) + "\n"@,
    }
}

/// The line about a tensor.
pub open spec fn tensor_line(t: SpecTensor) -> Seq<char> {
    "  "@ + pad_right(t.name, 28) + " "@ + pad_right(ggml_name(t.type_code), 8) + " "@ + list_text(
        t.dims,
    ) + "  offset 0x"@ + hex(t.offset as nat) + "\n"@
}

/// The facts at the top of the show view.
pub open spec fn show_header(h: SpecHead, file_len: nat, name: Seq<char>) -> Seq<char> {
    "file:       "@ + name + "\n"@ + "size:       "@ + size_text(file_len) + "\n"@ + "gguf:       v"@
        + dec(h.version as nat) + " little-endian\n"@ + "alignment:  "@ + dec(h.alignment as nat)
        + "\n"@ + "tensors:    "@ + dec(h.tensors.len()) + " ("@ + size_text(
        data_length(h, file_len),
    ) + " of tensor data)\n"@ + "data at:    0x"@ + hex(h.data_start as nat)
        + " (headroom for in-place edits: "@ + bytes_text(headroom_of(h)) + ")\n"@ + "metadata:   "@
        + dec(h.kvs.len()) + " "@ + (if h.kvs.len() == 1 {
        "key"@
    } else {
        "keys"@
    }) + "\n"@
}

/// The show view.
pub open spec fn show_text(
    h: SpecHead,
    file_len: nat,
    name: Seq<char>,
    with_tensors: bool,
) -> Seq<char> {
    show_header(h, file_len, name) + lines(h.kvs.len(), |i: int| kv_line(h.kvs[i])) + (
    if with_tensors {
        "tensor list:\n"@ + lines(h.tensors.len(), |i: int| tensor_line(h.tensors[i]))
    } else {
        Seq::empty()
    })
}

/// Append the line about a metadata pair.
fn push_kv_line(out: &mut String, kv: &KvPair)
    ensures
        final(out)@ == old(out)@ + kv_line(kv@),
{
    let mut line = "  ".to_string();
    push_padded(&mut line, kv.key.as_str(), 36);
    line.append(" ");
    let managed = str_eq(kv.key.as_str(), PAD_KEY);
    let mut done = false;
    match &kv.value {
        GgufValue::Str(s) => {
            if managed {
                push_padded(&mut line, "string", 13);
                line.append(" (");
                line.append(fmt_bytes(str_len(s.as_str()) as u64).as_str());
                line.append(" of managed headroom)\n");
                done = true;
            }
        },
        _ => {},
    }
    if !done {
        push_padded(&mut line, kv.value.type_label().as_str(), 13);
        line.append(" ");
        line.append(kv.value.preview(60).as_str());
        line.append("\n");
    }
    assert(line@ == kv_line(kv@));
    out.append(line.as_str());
}

/// Append the line about a tensor.
fn push_tensor_line(out: &mut String, t: &TensorInfo)
    ensures
        final(out)@ == old(out)@ + tensor_line(t@),
{
    let mut line = "  ".to_string();
    push_padded(&mut line, t.name.as_str(), 28);
    line.append(" ");
    push_padded(&mut line, ggml_type_name(t.type_code).as_str(), 8);
    line.append(" ");
    line.append(list_string(&t.dims).as_str());
    line.append("  offset 0x");
    push_hex(&mut line, t.offset);
    line.append("\n");
    out.append(line.as_str());
}

/// The facts at the top of the show view.
fn header_string(g: &Gguf, name: &str) -> (out: String)
    ensures
        out@ == show_header(g@, g.file_len as nat, name@),
{
    let mut out = "file:       ".to_string();
    out.append(name);
    out.append("\n");
    out.append("size:       ");
    out.append(fmt_size(g.file_len).as_str());
    out.append("\n");
    out.append("gguf:       v");
    push_dec(&mut out, g.version as u128);
    out.append(" little-endian\n");
    out.append("alignment:  ");
    push_dec(&mut out, g.alignment as u128);
    out.append("\n");
    out.append("tensors:    ");
    push_dec(&mut out, g.tensors.len() as u128);
    out.append(" (");
    out.append(fmt_size(g.data_len()).as_str());
    out.append(" of tensor data)\n");
    out.append("data at:    0x");
    push_hex(&mut out, g.data_start);
    out.append(" (headroom for in-place edits: ");
    out.append(fmt_bytes(headroom(g)).as_str());
    out.append(")\n");
    out.append("metadata:   ");
    push_dec(&mut out, g.kvs.len() as u128);
    out.append(" ");
    if g.kvs.len() == 1 {
        out.append("key");
    } else {
        out.append("keys");
    }
    out.append("\n");
    out
}

/// The human-readable `show` view.
pub fn render_show(g: &Gguf, name: &str, with_tensors: bool) -> (out: String)
    ensures
        out@ == show_text(g@, g.file_len as nat, name@, with_tensors),
{
    let mut out = header_string(g, name);
    let ghost head = out@;
    let ghost kf = |i: int| kv_line(g@.kvs[i]);
    let mut i: usize = 0;
    assert(out@ =~= head + lines(0, kf));
    while i < g.kvs.len()
        invariant
            i <= g.kvs@.len(),
            kf == (|i: int| kv_line(g@.kvs[i])),
            out@ == head + lines(i as nat, kf),
        decreases g.kvs@.len() - i,
    {
        push_kv_line(&mut out, &g.kvs[i]);
        assert(g@.kvs[i as int] == g.kvs@[i as int]@);
        assert(out@ =~= head + lines((i + 1) as nat, kf));
        i += 1;
    }
    let ghost body = out@;
    if with_tensors {
        out.append("tensor list:\n");
        let ghost tf = |i: int| tensor_line(g@.tensors[i]);
        let mut k: usize = 0;
        assert(out@ =~= body + ("tensor list:\n"@ + lines(0, tf)));
        while k < g.tensors.len()
            invariant
                k <= g.tensors@.len(),
                tf == (|i: int| tensor_line(g@.tensors[i])),
                out@ == body + ("tensor list:\n"@ + lines(k as nat, tf)),
            decreases g.tensors@.len() - k,
        {
            push_tensor_line(&mut out, &g.tensors[k]);
            assert(g@.tensors[k as int] == g.tensors@[k as int]@);
            assert(out@ =~= body + ("tensor list:\n"@ + lines((k + 1) as nat, tf)));
            k += 1;
        }
    } else {
        assert(out@ =~= body + Seq::<char>::empty());
    }
    out
}

} // verus!
