//! Core data model for GGUF files: metadata value types and values, tensor
//! descriptors, and the ggml tensor-type table used for size math and
//! human-readable display.
//!
//! Floating-point values are held by their IEEE 754 bit patterns, so that a
//! value read from a file is written back bit for bit.

use crate::float::{display_32, display_64, display_double, display_single};
use crate::text::{
    byte_len, char_code, chars_of, dec, hex, int_string, int_text, is_control, join, push_dec,
    push_hex, str_eq, str_len, string_of,
};
use vstd::prelude::*;
use vstd::string::*;

verus! {

/// The four magic bytes at the start of every GGUF file.
pub const MAGIC: [u8; 4] = [0x47, 0x47, 0x55, 0x46];

/// Default tensor-data alignment when `general.alignment` is absent.
pub const DEFAULT_ALIGNMENT: u64 = 32;

/// The metadata key that stores the alignment override.
pub const ALIGNMENT_KEY: &'static str = "general.alignment";

/// The metadata key that stores the chat template.
pub const CHAT_TEMPLATE_KEY: &'static str = "tokenizer.chat_template";

/// The least multiple of `align` that is not below `x` (`align == 0` counts
/// as 1).
pub open spec fn aligned(x: int, align: int) -> int {
    let a = align_step(align);
    ((x + a - 1) / a) * a
}

/// The distance between aligned positions: `align`, or 1 where it is 0.
pub open spec fn align_step(align: int) -> int {
    if align == 0 {
        1
    } else {
        align
    }
}

/// [`aligned`] is a multiple of the alignment, not below `x`, and less than one
/// alignment step above it: the least such multiple.
pub proof fn lemma_aligned(x: int, align: int)
    requires
        x >= 0,
        align >= 0,
    ensures
        ({
            let a = align_step(align);
            &&& x <= aligned(x, align) < x + a
            &&& aligned(x, align) % a == 0
            &&& forall|y: int| x <= y && #[trigger] (y % a) == 0 ==> aligned(x, align) <= y
        }),
{
    let a = align_step(align);
    let q = (x + a - 1) / a;
    vstd::arithmetic::div_mod::lemma_fundamental_div_mod(x + a - 1, a);
    assert(aligned(x, align) == q * a);
    assert(q * a == a * q) by (nonlinear_arith);
    vstd::arithmetic::div_mod::lemma_mod_multiples_basic(q, a);
    assert forall|y: int| x <= y && #[trigger] (y % a) == 0 implies aligned(x, align) <= y by {
        vstd::arithmetic::div_mod::lemma_fundamental_div_mod(y, a);
        let p = y / a;
        assert(y == a * p);
        if p < q {
            assert(a * p <= a * (q - 1)) by (nonlinear_arith)
                requires
                    p <= q - 1,
                    a > 0,
            ;
            assert(a * (q - 1) == a * q - a) by (nonlinear_arith);
        } else {
            assert(a * q <= a * p) by (nonlinear_arith)
                requires
                    q <= p,
                    a > 0,
            ;
        }
    }
}

/// Aligning what is aligned changes nothing.
pub proof fn lemma_aligned_fixed(x: int, align: int)
    requires
        x >= 0,
        align >= 0,
        align > 0 ==> x % align == 0,
    ensures
        aligned(x, align) == x,
{
    lemma_aligned(x, align);
    let a = align_step(align);
    assert(x % a == 0);
}

/// Round `x` up to the next multiple of `align` (treats `align == 0` as 1).
pub fn align_up(x: u64, align: u64) -> (r: u64)
    requires
        aligned(x as int, align as int) <= u64::MAX,
    ensures
        r == aligned(x as int, align as int),
{
    let a: u64 = if align == 0 {
        1
    } else {
        align
    };
    let rem: u64 = x % a;
    proof {
        lemma_aligned(x as int, align as int);
        let q = x as int / a as int;
        vstd::arithmetic::div_mod::lemma_fundamental_div_mod(x as int, a as int);
        if rem == 0 {
            lemma_aligned_fixed(x as int, a as int);
        } else {
            assert(a * (q + 1) == a * q + a) by (nonlinear_arith);
            assert((x - rem + a) % (a as int) == 0) by {
                vstd::arithmetic::div_mod::lemma_mod_multiples_basic(q + 1, a as int);
                assert((q + 1) * a == a * (q + 1)) by (nonlinear_arith);
            }
            let y = aligned(x as int, align as int);
            vstd::arithmetic::div_mod::lemma_fundamental_div_mod(y, a as int);
            let p = y / (a as int);
            assert(y == a * p);
            assert(p >= q + 1) by (nonlinear_arith)
                requires
                    a * p >= a * q + rem,
                    rem > 0,
                    a > 0,
            ;
            assert(a * p >= a * (q + 1)) by (nonlinear_arith)
                requires
                    p >= q + 1,
                    a > 0,
            ;
        }
    }
    if rem == 0 {
        x
    } else {
        x - rem + a
    }
}

/// The thirteen GGUF metadata value types, in wire-code order.
#[derive(Clone, Copy, Debug, PartialEq, Eq, Structural)]
pub enum GgufType {
    U8,
    I8,
    U16,
    I16,
    U32,
    I32,
    F32,
    Bool,
    Str,
    Array,
    U64,
    I64,
    F64,
}

/// The wire code of a type.
pub open spec fn type_code(ty: GgufType) -> u32 {
    match ty {
        GgufType::U8 => 0,
        GgufType::I8 => 1,
        GgufType::U16 => 2,
        GgufType::I16 => 3,
        GgufType::U32 => 4,
        GgufType::I32 => 5,
        GgufType::F32 => 6,
        GgufType::Bool => 7,
        GgufType::Str => 8,
        GgufType::Array => 9,
        GgufType::U64 => 10,
        GgufType::I64 => 11,
        GgufType::F64 => 12,
    }
}

/// The type with a given wire code.
pub open spec fn type_of_code(code: u32) -> Option<GgufType> {
    if code == 0 {
        Some(GgufType::U8)
    } else if code == 1 {
        Some(GgufType::I8)
    } else if code == 2 {
        Some(GgufType::U16)
    } else if code == 3 {
        Some(GgufType::I16)
    } else if code == 4 {
        Some(GgufType::U32)
    } else if code == 5 {
        Some(GgufType::I32)
    } else if code == 6 {
        Some(GgufType::F32)
    } else if code == 7 {
        Some(GgufType::Bool)
    } else if code == 8 {
        Some(GgufType::Str)
    } else if code == 9 {
        Some(GgufType::Array)
    } else if code == 10 {
        Some(GgufType::U64)
    } else if code == 11 {
        Some(GgufType::I64)
    } else if code == 12 {
        Some(GgufType::F64)
    } else {
        None
    }
}

/// The short human name of a type.
pub open spec fn name_of_type(ty: GgufType) -> Seq<char> {
    match ty {
        GgufType::U8 => "u8"@,
        GgufType::I8 => "i8"@,
        GgufType::U16 => "u16"@,
        GgufType::I16 => "i16"@,
        GgufType::U32 => "u32"@,
        GgufType::I32 => "i32"@,
        GgufType::F32 => "f32"@,
        GgufType::Bool => "bool"@,
        GgufType::Str => "string"@,
        GgufType::Array => "array"@,
        GgufType::U64 => "u64"@,
        GgufType::I64 => "i64"@,
        GgufType::F64 => "f64"@,
    }
}

/// The type that a name stands for: its short name, or `str` for strings.
pub open spec fn type_of_name(name: Seq<char>) -> Option<GgufType> {
    if name == "u8"@ {
        Some(GgufType::U8)
    } else if name == "i8"@ {
        Some(GgufType::I8)
    } else if name == "u16"@ {
        Some(GgufType::U16)
    } else if name == "i16"@ {
        Some(GgufType::I16)
    } else if name == "u32"@ {
        Some(GgufType::U32)
    } else if name == "i32"@ {
        Some(GgufType::I32)
    } else if name == "f32"@ {
        Some(GgufType::F32)
    } else if name == "bool"@ {
        Some(GgufType::Bool)
    } else if name == "str"@ || name == "string"@ {
        Some(GgufType::Str)
    } else if name == "array"@ {
        Some(GgufType::Array)
    } else if name == "u64"@ {
        Some(GgufType::U64)
    } else if name == "i64"@ {
        Some(GgufType::I64)
    } else if name == "f64"@ {
        Some(GgufType::F64)
    } else {
        None
    }
}

/// Every type is found again by its wire code, and by its name.
pub proof fn law_type_codes_and_names_roundtrip(ty: GgufType)
    ensures
        type_of_code(type_code(ty)) == Some(ty),
        type_of_name(name_of_type(ty)) == Some(ty),
{
    reveal_strlit("u8");
    reveal_strlit("i8");
    reveal_strlit("u16");
    reveal_strlit("i16");
    reveal_strlit("u32");
    reveal_strlit("i32");
    reveal_strlit("f32");
    reveal_strlit("bool");
    reveal_strlit("str");
    reveal_strlit("string");
    reveal_strlit("array");
    reveal_strlit("u64");
    reveal_strlit("i64");
    reveal_strlit("f64");
    assert("u8"@[0] == 'u' && "u8"@[1] == '8');
    assert("i8"@[0] == 'i' && "i8"@[1] == '8');
    assert("u16"@[0] == 'u' && "u16"@[1] == '1');
    assert("i16"@[0] == 'i' && "i16"@[1] == '1');
    assert("u32"@[0] == 'u' && "u32"@[1] == '3');
    assert("i32"@[0] == 'i' && "i32"@[1] == '3');
    assert("f32"@[0] == 'f' && "f32"@[1] == '3');
    assert("str"@[0] == 's');
    assert("u64"@[0] == 'u' && "u64"@[1] == '6');
    assert("i64"@[0] == 'i' && "i64"@[1] == '6');
    assert("f64"@[0] == 'f' && "f64"@[1] == '6');
    assert("u8"@.len() == 2 && "i8"@.len() == 2);
    assert("u16"@.len() == 3 && "i16"@.len() == 3 && "u32"@.len() == 3 && "i32"@.len() == 3);
    assert("f32"@.len() == 3 && "str"@.len() == 3 && "u64"@.len() == 3 && "i64"@.len() == 3);
    assert("f64"@.len() == 3 && "bool"@.len() == 4 && "array"@.len() == 5 && "string"@.len() == 6);
}

/// A wire code names a type exactly when it is at most 12, and that type has
/// this code.
pub proof fn law_code_of_type_of_code(code: u32)
    ensures
        type_of_code(code) is Some <==> code <= 12,
        type_of_code(code) matches Some(ty) ==> type_code(ty) == code,
{
}

impl GgufType {
    /// Decode a wire type code (0..=12).
    pub fn from_code(code: u32) -> (r: Option<GgufType>)
        ensures
            r == type_of_code(code),
    {
        match code {
            0 => Some(GgufType::U8),
            1 => Some(GgufType::I8),
            2 => Some(GgufType::U16),
            3 => Some(GgufType::I16),
            4 => Some(GgufType::U32),
            5 => Some(GgufType::I32),
            6 => Some(GgufType::F32),
            7 => Some(GgufType::Bool),
            8 => Some(GgufType::Str),
            9 => Some(GgufType::Array),
            10 => Some(GgufType::U64),
            11 => Some(GgufType::I64),
            12 => Some(GgufType::F64),
            _ => None,
        }
    }

    /// The wire type code written into the file.
    pub fn code(self) -> (r: u32)
        ensures
            r == type_code(self),
    {
        match self {
            GgufType::U8 => 0,
            GgufType::I8 => 1,
            GgufType::U16 => 2,
            GgufType::I16 => 3,
            GgufType::U32 => 4,
            GgufType::I32 => 5,
            GgufType::F32 => 6,
            GgufType::Bool => 7,
            GgufType::Str => 8,
            GgufType::Array => 9,
            GgufType::U64 => 10,
            GgufType::I64 => 11,
            GgufType::F64 => 12,
        }
    }

    /// Short human name, as used in CLI type prefixes and JSON dumps.
    pub fn name(self) -> (r: &'static str)
        ensures
            r@ == name_of_type(self),
    {
        match self {
            GgufType::U8 => "u8",
            GgufType::I8 => "i8",
            GgufType::U16 => "u16",
            GgufType::I16 => "i16",
            GgufType::U32 => "u32",
            GgufType::I32 => "i32",
            GgufType::F32 => "f32",
            GgufType::Bool => "bool",
            GgufType::Str => "string",
            GgufType::Array => "array",
            GgufType::U64 => "u64",
            GgufType::I64 => "i64",
            GgufType::F64 => "f64",
        }
    }

    /// Parse a type name as accepted on the command line (`str` and `string`
    /// are aliases; everything else matches [`GgufType::name`]).
    pub fn from_name(name: &str) -> (r: Option<GgufType>)
        ensures
            r == type_of_name(name@),
    {
        if str_eq(name, "u8") {
            Some(GgufType::U8)
        } else if str_eq(name, "i8") {
            Some(GgufType::I8)
        } else if str_eq(name, "u16") {
            Some(GgufType::U16)
        } else if str_eq(name, "i16") {
            Some(GgufType::I16)
        } else if str_eq(name, "u32") {
            Some(GgufType::U32)
        } else if str_eq(name, "i32") {
            Some(GgufType::I32)
        } else if str_eq(name, "f32") {
            Some(GgufType::F32)
        } else if str_eq(name, "bool") {
            Some(GgufType::Bool)
        } else if str_eq(name, "str") || str_eq(name, "string") {
            Some(GgufType::Str)
        } else if str_eq(name, "array") {
            Some(GgufType::Array)
        } else if str_eq(name, "u64") {
            Some(GgufType::U64)
        } else if str_eq(name, "i64") {
            Some(GgufType::I64)
        } else if str_eq(name, "f64") {
            Some(GgufType::F64)
        } else {
            None
        }
    }
}

// ---------------------------------------------------------------------------
// Values
// ---------------------------------------------------------------------------

/// A decoded GGUF metadata value. Arrays carry their element type so that
/// re-serialization is byte-exact. `F32` and `F64` hold the bit pattern of the
/// number.
#[derive(Debug, PartialEq)]
pub enum GgufValue {
    U8(u8),
    I8(i8),
    U16(u16),
    I16(i16),
    U32(u32),
    I32(i32),
    F32(u32),
    Bool(bool),
    Str(String),
    Array(GgufType, Vec<GgufValue>),
    U64(u64),
    I64(i64),
    F64(u64),
}

/// What a [`GgufValue`] holds, with text and arrays as sequences.
pub enum SpecValue {
    U8(u8),
    I8(i8),
    U16(u16),
    I16(i16),
    U32(u32),
    I32(i32),
    F32(u32),
    Bool(bool),
    Str(Seq<char>),
    Array(GgufType, Seq<SpecValue>),
    U64(u64),
    I64(i64),
    F64(u64),
}

/// The contents of a value.
pub open spec fn value_view(v: GgufValue) -> SpecValue
    decreases v,
{
    match v {
        GgufValue::U8(x) => SpecValue::U8(x),
        GgufValue::I8(x) => SpecValue::I8(x),
        GgufValue::U16(x) => SpecValue::U16(x),
        GgufValue::I16(x) => SpecValue::I16(x),
        GgufValue::U32(x) => SpecValue::U32(x),
        GgufValue::I32(x) => SpecValue::I32(x),
        GgufValue::F32(x) => SpecValue::F32(x),
        GgufValue::Bool(x) => SpecValue::Bool(x),
        GgufValue::Str(s) => SpecValue::Str(s@),
        GgufValue::Array(t, items) => SpecValue::Array(
            t,
            Seq::new(
                items@.len(),
                |i: int|
                    if 0 <= i < items@.len() {
                        value_view(items@[i])
                    } else {
                        SpecValue::U8(0)
                    },
            ),
        ),
        GgufValue::U64(x) => SpecValue::U64(x),
        GgufValue::I64(x) => SpecValue::I64(x),
        GgufValue::F64(x) => SpecValue::F64(x),
    }
}

impl View for GgufValue {
    type V = SpecValue;

    open spec fn view(&self) -> SpecValue {
        value_view(*self)
    }
}

/// The contents of each value in a sequence.
pub open spec fn values_view(items: Seq<GgufValue>) -> Seq<SpecValue> {
    Seq::new(items.len(), |i: int| value_view(items[i]))
}

/// An array's contents are its element type and the contents of its items.
pub proof fn lemma_array_view(t: GgufType, items: Vec<GgufValue>)
    ensures
        GgufValue::Array(t, items)@ == SpecValue::Array(t, values_view(items@)),
{
    reveal_with_fuel(value_view, 2);
    assert(GgufValue::Array(t, items)@->Array_1 =~= values_view(items@));
}

impl Clone for GgufValue {
    fn clone(&self) -> (r: Self)
        ensures
            r@ == self@,
        decreases self,
    {
        match self {
            GgufValue::U8(x) => GgufValue::U8(*x),
            GgufValue::I8(x) => GgufValue::I8(*x),
            GgufValue::U16(x) => GgufValue::U16(*x),
            GgufValue::I16(x) => GgufValue::I16(*x),
            GgufValue::U32(x) => GgufValue::U32(*x),
            GgufValue::I32(x) => GgufValue::I32(*x),
            GgufValue::F32(x) => GgufValue::F32(*x),
            GgufValue::Bool(x) => GgufValue::Bool(*x),
            GgufValue::Str(s) => GgufValue::Str(s.clone()),
            GgufValue::Array(t, items) => {
                let mut out: Vec<GgufValue> = Vec::new();
                let mut i: usize = 0;
                while i < items.len()
                    invariant
                        self matches GgufValue::Array(_, its) && its == items,
                        i == out@.len(),
                        i <= items@.len(),
                        forall|j: int| 0 <= j < i ==> (#[trigger] out@[j])@ == items@[j]@,
                    decreases items@.len() - i,
                {
                    let item = items[i].clone();
                    out.push(item);
                    i += 1;
                }
                proof {
                    lemma_array_view(*t, out);
                    lemma_array_view(*t, *items);
                    assert forall|j: int| 0 <= j < items@.len() implies values_view(out@)[j]
                        == values_view(items@)[j] by {
                        assert(out@[j]@ == items@[j]@);
                    }
                    assert(values_view(out@) =~= values_view(items@));
                }
                GgufValue::Array(*t, out)
            },
            GgufValue::U64(x) => GgufValue::U64(*x),
            GgufValue::I64(x) => GgufValue::I64(*x),
            GgufValue::F64(x) => GgufValue::F64(*x),
        }
    }
}

/// The type of a value.
pub open spec fn value_type(v: SpecValue) -> GgufType {
    match v {
        SpecValue::U8(_) => GgufType::U8,
        SpecValue::I8(_) => GgufType::I8,
        SpecValue::U16(_) => GgufType::U16,
        SpecValue::I16(_) => GgufType::I16,
        SpecValue::U32(_) => GgufType::U32,
        SpecValue::I32(_) => GgufType::I32,
        SpecValue::F32(_) => GgufType::F32,
        SpecValue::Bool(_) => GgufType::Bool,
        SpecValue::Str(_) => GgufType::Str,
        SpecValue::Array(_, _) => GgufType::Array,
        SpecValue::U64(_) => GgufType::U64,
        SpecValue::I64(_) => GgufType::I64,
        SpecValue::F64(_) => GgufType::F64,
    }
}

/// The human type label of a value.
pub open spec fn label_text(v: SpecValue) -> Seq<char> {
    match v {
        SpecValue::Array(elem, _) => "array<"@ + name_of_type(elem) + ">"@,
        _ => name_of_type(value_type(v)),
    }
}

/// The value of a non-negative integer, whatever its width.
pub open spec fn value_as_u64(v: SpecValue) -> Option<u64> {
    match v {
        SpecValue::U8(x) => Some(x as u64),
        SpecValue::U16(x) => Some(x as u64),
        SpecValue::U32(x) => Some(x as u64),
        SpecValue::U64(x) => Some(x),
        SpecValue::I8(x) => if x >= 0 {
            Some(x as u64)
        } else {
            None
        },
        SpecValue::I16(x) => if x >= 0 {
            Some(x as u64)
        } else {
            None
        },
        SpecValue::I32(x) => if x >= 0 {
            Some(x as u64)
        } else {
            None
        },
        SpecValue::I64(x) => if x >= 0 {
            Some(x as u64)
        } else {
            None
        },
        _ => None,
    }
}

/// The shown items of an array preview: the first few, each shortened.
pub open spec fn shown_items(items: Seq<SpecValue>) -> Seq<Seq<char>>
    decreases items,
{
    Seq::new(
        if items.len() < 3 {
            items.len()
        } else {
            3
        },
        |i: int|
            if 0 <= i < items.len() {
                preview_text(items[i], 24)
            } else {
                Seq::empty()
            },
    )
}

/// The one-line preview of a value, with at most `max` characters of a string.
pub open spec fn preview_text(v: SpecValue, max: nat) -> Seq<char>
    decreases v,
{
    match v {
        SpecValue::Str(s) => {
            let esc = escape_short_text(s);
            if esc.len() > max {
                "\""@ + esc.take(max as int) + "…\" ("@ + dec(byte_len(s)) + " bytes)"@
            } else {
                "\""@ + esc + "\""@
            }
        },
        SpecValue::Array(elem, items) => {
            let head = "array<"@ + name_of_type(elem) + ">["@ + dec(items.len()) + "]"@;
            if items.len() == 0 {
                head
            } else {
                let shown = head + " {"@ + join(shown_items(items), ", "@);
                if items.len() > 3 {
                    shown + ", …"@ + "}"@
                } else {
                    shown + "}"@
                }
            }
        },
        SpecValue::U8(x) => dec(x as nat),
        SpecValue::I8(x) => int_text(x as int),
        SpecValue::U16(x) => dec(x as nat),
        SpecValue::I16(x) => int_text(x as int),
        SpecValue::U32(x) => dec(x as nat),
        SpecValue::I32(x) => int_text(x as int),
        SpecValue::U64(x) => dec(x as nat),
        SpecValue::I64(x) => int_text(x as int),
        SpecValue::F32(x) => display_32(x),
        SpecValue::F64(x) => display_64(x),
        SpecValue::Bool(x) => if x {
            "true"@
        } else {
            "false"@
        },
    }
}

impl GgufValue {
    /// One-line preview for tables: strings are escaped and truncated to
    /// `max_chars`, arrays show their length plus the first few elements.
    pub fn preview(&self, max_chars: usize) -> (r: String)
        ensures
            r@ == preview_text(self@, max_chars as nat),
        decreases self,
    {
        match self {
            GgufValue::Str(s) => {
                let esc = escape_short(s.as_str());
                let chars = chars_of(esc.as_str());
                let mut out = "\"".to_string();
                if chars.len() > max_chars {
                    let head = string_of(&chars, 0, max_chars);
                    out.append(head.as_str());
                    out.append("…\" (");
                    push_dec(&mut out, str_len(s.as_str()) as u128);
                    out.append(" bytes)");
                    assert(chars@.subrange(0, max_chars as int) =~= chars@.take(max_chars as int));
                } else {
                    out.append(esc.as_str());
                    out.append("\"");
                }
                out
            },
            GgufValue::Array(elem, items) => {
                let mut out = "array<".to_string();
                out.append(elem.name());
                out.append(">[");
                push_dec(&mut out, items.len() as u128);
                out.append("]");
                proof {
                    lemma_array_view(*elem, *items);
                }
                if items.len() > 0 {
                    out.append(" {");
                    let ghost base = out@;
                    let ghost shown = shown_items(values_view(items@));
                    let n: usize = if items.len() < 3 {
                        items.len()
                    } else {
                        3
                    };
                    let mut i: usize = 0;
                    assert(out@ =~= base + join(shown.take(0), ", "@));
                    while i < n
                        invariant
                            self matches GgufValue::Array(_, its) && its == items,
                            i <= n <= 3,
                            n == shown.len(),
                            n <= items@.len(),
                            shown == shown_items(values_view(items@)),
                            out@ == base + join(shown.take(i as int), ", "@),
                        decreases n - i,
                    {
                        let ghost before = out@;
                        if i > 0 {
                            out.append(", ");
                        }
                        let item = items[i].preview(24);
                        out.append(item.as_str());
                        proof {
                            let t = shown.take(i + 1);
                            assert(t.drop_last() =~= shown.take(i as int));
                            assert(t.last() == item@);
                            assert(out@ =~= base + join(t, ", "@));
                        }
                        i += 1;
                    }
                    assert(shown.take(i as int) =~= shown);
                    if items.len() > 3 {
                        out.append(", …");
                    }
                    out.append("}");
                }
                out
            },
            GgufValue::U8(x) => int_string(*x as i128),
            GgufValue::I8(x) => int_string(*x as i128),
            GgufValue::U16(x) => int_string(*x as i128),
            GgufValue::I16(x) => int_string(*x as i128),
            GgufValue::U32(x) => int_string(*x as i128),
            GgufValue::I32(x) => int_string(*x as i128),
            GgufValue::U64(x) => int_string(*x as i128),
            GgufValue::I64(x) => int_string(*x as i128),
            GgufValue::F32(x) => display_single(*x),
            GgufValue::F64(x) => display_double(*x),
            GgufValue::Bool(x) => if *x {
                "true".to_string()
            } else {
                "false".to_string()
            },
        }
    }

    /// The value's GGUF type.
    pub fn ty(&self) -> (r: GgufType)
        ensures
            r == value_type(self@),
    {
        match self {
            GgufValue::U8(_) => GgufType::U8,
            GgufValue::I8(_) => GgufType::I8,
            GgufValue::U16(_) => GgufType::U16,
            GgufValue::I16(_) => GgufType::I16,
            GgufValue::U32(_) => GgufType::U32,
            GgufValue::I32(_) => GgufType::I32,
            GgufValue::F32(_) => GgufType::F32,
            GgufValue::Bool(_) => GgufType::Bool,
            GgufValue::Str(_) => GgufType::Str,
            GgufValue::Array(_, _) => GgufType::Array,
            GgufValue::U64(_) => GgufType::U64,
            GgufValue::I64(_) => GgufType::I64,
            GgufValue::F64(_) => GgufType::F64,
        }
    }

    /// Human type label: scalar names, or `array<elem>` for arrays.
    pub fn type_label(&self) -> (r: String)
        ensures
            r@ == label_text(self@),
    {
        match self {
            GgufValue::Array(elem, _) => {
                let mut s = "array<".to_string();
                s.append(elem.name());
                s.append(">");
                s
            },
            other => other.ty().name().to_string(),
        }
    }

    /// Widen any non-negative integer value to `u64` (used for
    /// `general.alignment`, context lengths, etc.).
    pub fn as_u64(&self) -> (r: Option<u64>)
        ensures
            r == value_as_u64(self@),
    {
        match self {
            GgufValue::U8(v) => Some(*v as u64),
            GgufValue::U16(v) => Some(*v as u64),
            GgufValue::U32(v) => Some(*v as u64),
            GgufValue::U64(v) => Some(*v),
            GgufValue::I8(v) => if *v >= 0 {
                Some(*v as u64)
            } else {
                None
            },
            GgufValue::I16(v) => if *v >= 0 {
                Some(*v as u64)
            } else {
                None
            },
            GgufValue::I32(v) => if *v >= 0 {
                Some(*v as u64)
            } else {
                None
            },
            GgufValue::I64(v) => if *v >= 0 {
                Some(*v as u64)
            } else {
                None
            },
            _ => None,
        }
    }
}

/// One character as it stands in a one-line display.
pub open spec fn escaped_short(c: char) -> Seq<char> {
    if c == '\n' {
        "\\n"@
    } else if c == '\r' {
        "\\r"@
    } else if c == '\t' {
        "\\t"@
    } else if c == '"' {
        "\\\""@
    } else if is_control(c) {
        "\\u{"@ + hex(c as nat) + "}"@
    } else {
        seq![c]
    }
}

/// Text as it stands in a one-line display: each character escaped in turn.
pub open spec fn escape_short_text(s: Seq<char>) -> Seq<char>
    decreases s.len(),
{
    if s.len() == 0 {
        Seq::empty()
    } else {
        escape_short_text(s.drop_last()) + escaped_short(s.last())
    }
}

/// Escape control characters for one-line display (`\n` → `\\n`, etc.).
pub fn escape_short(s: &str) -> (out: String)
    ensures
        out@ == escape_short_text(s@),
{
    let chars = chars_of(s);
    let mut out = String::new();
    let mut i: usize = 0;
    assert(out@ =~= escape_short_text(chars@.take(0)));
    while i < chars.len()
        invariant
            i <= chars@.len(),
            out@ == escape_short_text(chars@.take(i as int)),
        decreases chars@.len() - i,
    {
        let c = chars[i];
        let code: u32 = char_code(c);
        let ghost before = out@;
        if c == '\n' {
            out.append("\\n");
        } else if c == '\r' {
            out.append("\\r");
        } else if c == '\t' {
            out.append("\\t");
        } else if c == '"' {
            out.append("\\\"");
        } else if code < 0x20 || (0x7f <= code && code <= 0x9f) {
            out.append("\\u{");
            push_hex(&mut out, code as u64);
            out.append("}");
            assert(out@ =~= before + ("\\u{"@ + hex(c as nat) + "}"@));
        } else {
            out.push(c);
        }
        assert(out@ =~= before + escaped_short(c));
        i += 1;
        assert(chars@.take(i as int).drop_last() =~= chars@.take(i - 1));
    }
    assert(chars@.take(i as int) =~= s@);
    out
}

// ---------------------------------------------------------------------------
// Key/value pairs and tensor descriptors
// ---------------------------------------------------------------------------

/// One metadata key/value pair, in file order.
#[derive(Debug, PartialEq)]
pub struct KvPair {
    pub key: String,
    pub value: GgufValue,
}

/// What a [`KvPair`] holds.
pub struct SpecKv {
    pub key: Seq<char>,
    pub value: SpecValue,
}

impl View for KvPair {
    type V = SpecKv;

    open spec fn view(&self) -> SpecKv {
        SpecKv { key: self.key@, value: self.value@ }
    }
}

impl Clone for KvPair {
    fn clone(&self) -> (r: Self)
        ensures
            r@ == self@,
    {
        KvPair { key: self.key.clone(), value: self.value.clone() }
    }
}

/// Convenience constructor used by the sample builder and tests.
pub fn kv(key: &str, value: GgufValue) -> (r: KvPair)
    ensures
        r@ == (SpecKv { key: key@, value: value@ }),
{
    KvPair { key: key.to_string(), value }
}

/// Copy of metadata.
pub fn clone_kvs(kvs: &[KvPair]) -> (r: Vec<KvPair>)
    ensures
        kvs_view(r@) == kvs_view(kvs@),
{
    let mut out: Vec<KvPair> = Vec::new();
    let mut i: usize = 0;
    assert(kvs_view(out@) =~= kvs_view(kvs@).take(0));
    while i < kvs.len()
        invariant
            i <= kvs@.len(),
            kvs_view(out@) == kvs_view(kvs@).take(i as int),
        decreases kvs@.len() - i,
    {
        let ghost before = kvs_view(out@);
        let copy = kvs[i].clone();
        out.push(copy);
        assert(kvs_view(out@) =~= before.push(kvs@[i as int]@));
        i += 1;
        assert(kvs_view(out@) =~= kvs_view(kvs@).take(i as int));
    }
    assert(kvs_view(kvs@).take(i as int) =~= kvs_view(kvs@));
    out
}

/// The contents of each pair in a sequence.
pub open spec fn kvs_view(kvs: Seq<KvPair>) -> Seq<SpecKv> {
    Seq::new(kvs.len(), |i: int| kvs[i]@)
}

/// One tensor descriptor from the head. `offset` is relative to the start of
/// the tensor-data section — which is exactly why metadata edits can leave
/// tensor data untouched.
#[derive(Debug, PartialEq)]
pub struct TensorInfo {
    pub name: String,
    pub dims: Vec<u64>,
    pub type_code: u32,
    pub offset: u64,
}

/// What a [`TensorInfo`] holds.
pub struct SpecTensor {
    pub name: Seq<char>,
    pub dims: Seq<u64>,
    pub type_code: u32,
    pub offset: u64,
}

impl View for TensorInfo {
    type V = SpecTensor;

    open spec fn view(&self) -> SpecTensor {
        SpecTensor {
            name: self.name@,
            dims: self.dims@,
            type_code: self.type_code,
            offset: self.offset,
        }
    }
}

impl Clone for TensorInfo {
    fn clone(&self) -> (r: Self)
        ensures
            r@ == self@,
    {
        TensorInfo {
            name: self.name.clone(),
            dims: self.dims.clone(),
            type_code: self.type_code,
            offset: self.offset,
        }
    }
}

/// Copy of tensor descriptors.
pub fn clone_tensors(tensors: &[TensorInfo]) -> (r: Vec<TensorInfo>)
    ensures
        tensors_view(r@) == tensors_view(tensors@),
{
    let mut out: Vec<TensorInfo> = Vec::new();
    let mut i: usize = 0;
    assert(tensors_view(out@) =~= tensors_view(tensors@).take(0));
    while i < tensors.len()
        invariant
            i <= tensors@.len(),
            tensors_view(out@) == tensors_view(tensors@).take(i as int),
        decreases tensors@.len() - i,
    {
        let ghost before = tensors_view(out@);
        let copy = tensors[i].clone();
        out.push(copy);
        assert(tensors_view(out@) =~= before.push(tensors@[i as int]@));
        i += 1;
        assert(tensors_view(out@) =~= tensors_view(tensors@).take(i as int));
    }
    assert(tensors_view(tensors@).take(i as int) =~= tensors_view(tensors@));
    out
}

/// The contents of each descriptor in a sequence.
pub open spec fn tensors_view(tensors: Seq<TensorInfo>) -> Seq<SpecTensor> {
    Seq::new(tensors.len(), |i: int| tensors[i]@)
}

/// `start` times each number of `s` in turn; `None` as soon as a product
/// exceeds 128 bits.
pub open spec fn checked_product(start: nat, s: Seq<u64>) -> Option<nat>
    decreases s.len(),
{
    if s.len() == 0 {
        Some(start)
    } else {
        match checked_product(start, s.drop_last()) {
            Some(p) => if p * (s.last() as nat) <= u128::MAX {
                Some(p * (s.last() as nat))
            } else {
                None
            },
            None => None,
        }
    }
}

/// A product that has left 128 bits stays undefined.
proof fn lemma_checked_product_none(start: nat, s: Seq<u64>, k: int)
    requires
        0 <= k <= s.len(),
        checked_product(start, s.take(k)) is None,
    ensures
        checked_product(start, s) is None,
    decreases s.len() - k,
{
    if k == s.len() {
        assert(s.take(k) =~= s);
    } else {
        assert(s.drop_last().take(k) =~= s.take(k));
        lemma_checked_product_none(start, s.drop_last(), k);
    }
}

/// `p`, where it fits in 64 bits.
pub open spec fn narrow(p: Option<nat>) -> Option<u64> {
    match p {
        Some(n) => if n <= u64::MAX {
            Some(n as u64)
        } else {
            None
        },
        None => None,
    }
}

/// The product of `start` and `dims[from..]`, where every step fits in 128 bits
/// and the result in 64.
fn product_from(start: u128, dims: &Vec<u64>, from: usize) -> (r: Option<u64>)
    requires
        from <= dims@.len(),
    ensures
        r == narrow(checked_product(start as nat, dims@.skip(from as int))),
{
    let ghost s = dims@.skip(from as int);
    let mut total: u128 = start;
    let mut i: usize = from;
    assert(s.take(0) =~= Seq::<u64>::empty());
    while i < dims.len()
        invariant
            from <= i <= dims@.len(),
            s == dims@.skip(from as int),
            checked_product(start as nat, s.take(i - from)) == Some(total as nat),
        decreases dims@.len() - i,
    {
        let ghost t = s.take(i - from + 1);
        proof {
            assert(t.drop_last() =~= s.take(i - from));
            assert(t.last() == dims@[i as int]);
        }
        match total.checked_mul(dims[i] as u128) {
            None => {
                proof {
                    lemma_checked_product_none(start as nat, s, i - from + 1);
                }
                return None;
            },
            Some(p) => {
                total = p;
            },
        }
        i += 1;
    }
    assert(s.take(i - from) =~= s);
    if total <= 0xffff_ffff_ffff_ffff {
        Some(total as u64)
    } else {
        None
    }
}

/// Total element count of a shape, or `None` on overflow or without dimensions.
pub open spec fn element_count(dims: Seq<u64>) -> Option<u64> {
    if dims.len() == 0 {
        None
    } else {
        narrow(checked_product(1, dims))
    }
}

/// Bytes that a tensor takes on disk: whole blocks along the first dimension,
/// times the other dimensions.
pub open spec fn tensor_bytes(t: SpecTensor) -> Option<u64> {
    match ggml_layout(t.type_code) {
        Some((block_elems, block_bytes)) => if t.dims.len() == 0 || t.dims[0] % block_elems != 0 {
            None
        } else {
            narrow(
                checked_product(
                    ((t.dims[0] / block_elems) as nat) * (block_bytes as nat),
                    t.dims.skip(1),
                ),
            )
        },
        None => None,
    }
}

impl TensorInfo {
    /// Total element count, or `None` on overflow / zero dims.
    pub fn n_elements(&self) -> (r: Option<u64>)
        ensures
            r == element_count(self.dims@),
    {
        if self.dims.len() == 0 {
            return None;
        }
        assert(self.dims@.skip(0) =~= self.dims@);
        product_from(1, &self.dims, 0)
    }

    /// Byte size on disk, when the ggml type's block layout is known and the
    /// first dimension is a whole number of blocks. `None` means "cannot
    /// compute" — the verifier then skips extent checks for this tensor.
    pub fn byte_size(&self) -> (r: Option<u64>)
        ensures
            r == tensor_bytes(self@),
    {
        match ggml_type_size(self.type_code) {
            None => None,
            Some((block_elems, block_bytes)) => {
                if self.dims.len() == 0 {
                    return None;
                }
                let ne0 = self.dims[0];
                if ne0 % block_elems != 0 {
                    return None;
                }
                let blocks: u128 = (ne0 / block_elems) as u128;
                assert(blocks * block_bytes <= u64::MAX * 1024) by (nonlinear_arith)
                    requires
                        blocks <= u64::MAX,
                        block_bytes <= 1024,
                ;
                product_from(blocks * (block_bytes as u128), &self.dims, 1)
            },
        }
    }
}

// ---------------------------------------------------------------------------
// ggml tensor types
// ---------------------------------------------------------------------------

/// Name, block elements and block bytes of a ggml tensor type. Zero block bytes
/// mark types whose exact block size is not tracked; size checks are skipped
/// for those rather than risking false verification errors.
pub open spec fn ggml_row(code: u32) -> Option<(Seq<char>, u64, u64)> {
    if code == 0 {
        Some(("F32"@, 1, 4))
    } else if code == 1 {
        Some(("F16"@, 1, 2))
    } else if code == 2 {
        Some(("Q4_0"@, 32, 18))
    } else if code == 3 {
        Some(("Q4_1"@, 32, 20))
    } else if code == 6 {
        Some(("Q5_0"@, 32, 22))
    } else if code == 7 {
        Some(("Q5_1"@, 32, 24))
    } else if code == 8 {
        Some(("Q8_0"@, 32, 34))
    } else if code == 9 {
        Some(("Q8_1"@, 32, 36))
    } else if code == 10 {
        Some(("Q2_K"@, 256, 84))
    } else if code == 11 {
        Some(("Q3_K"@, 256, 110))
    } else if code == 12 {
        Some(("Q4_K"@, 256, 144))
    } else if code == 13 {
        Some(("Q5_K"@, 256, 176))
    } else if code == 14 {
        Some(("Q6_K"@, 256, 210))
    } else if code == 15 {
        Some(("Q8_K"@, 256, 292))
    } else if code == 16 {
        Some(("IQ2_XXS"@, 256, 0))
    } else if code == 17 {
        Some(("IQ2_XS"@, 256, 0))
    } else if code == 18 {
        Some(("IQ3_XXS"@, 256, 0))
    } else if code == 19 {
        Some(("IQ1_S"@, 256, 0))
    } else if code == 20 {
        Some(("IQ4_NL"@, 32, 18))
    } else if code == 21 {
        Some(("IQ3_S"@, 256, 0))
    } else if code == 22 {
        Some(("IQ2_S"@, 256, 0))
    } else if code == 23 {
        Some(("IQ4_XS"@, 256, 136))
    } else if code == 24 {
        Some(("I8"@, 1, 1))
    } else if code == 25 {
        Some(("I16"@, 1, 2))
    } else if code == 26 {
        Some(("I32"@, 1, 4))
    } else if code == 27 {
        Some(("I64"@, 1, 8))
    } else if code == 28 {
        Some(("F64"@, 1, 8))
    } else if code == 29 {
        Some(("IQ1_M"@, 256, 0))
    } else if code == 30 {
        Some(("BF16"@, 1, 2))
    } else {
        None
    }
}

/// Block layout of a ggml type, where it is tracked.
pub open spec fn ggml_layout(code: u32) -> Option<(u64, u64)> {
    match ggml_row(code) {
        Some((_, elems, bytes)) => if bytes > 0 {
            Some((elems, bytes))
        } else {
            None
        },
        None => None,
    }
}

/// Human name of a ggml type code.
pub open spec fn ggml_name(code: u32) -> Seq<char> {
    match ggml_row(code) {
        Some((name, _, _)) => name,
        None => "type#"@ + dec(code as nat),
    }
}

/// The table row of a ggml tensor type.
fn ggml_type(code: u32) -> (r: Option<(&'static str, u64, u64)>)
    ensures
        match r {
            Some((name, elems, bytes)) => ggml_row(code) == Some((name@, elems, bytes)) && elems > 0
                && bytes <= 1024,
            None => ggml_row(code) is None,
        },
{
    match code {
        0 => Some(("F32", 1, 4)),
        1 => Some(("F16", 1, 2)),
        2 => Some(("Q4_0", 32, 18)),
        3 => Some(("Q4_1", 32, 20)),
        6 => Some(("Q5_0", 32, 22)),
        7 => Some(("Q5_1", 32, 24)),
        8 => Some(("Q8_0", 32, 34)),
        9 => Some(("Q8_1", 32, 36)),
        10 => Some(("Q2_K", 256, 84)),
        11 => Some(("Q3_K", 256, 110)),
        12 => Some(("Q4_K", 256, 144)),
        13 => Some(("Q5_K", 256, 176)),
        14 => Some(("Q6_K", 256, 210)),
        15 => Some(("Q8_K", 256, 292)),
        16 => Some(("IQ2_XXS", 256, 0)),
        17 => Some(("IQ2_XS", 256, 0)),
        18 => Some(("IQ3_XXS", 256, 0)),
        19 => Some(("IQ1_S", 256, 0)),
        20 => Some(("IQ4_NL", 32, 18)),
        21 => Some(("IQ3_S", 256, 0)),
        22 => Some(("IQ2_S", 256, 0)),
        23 => Some(("IQ4_XS", 256, 136)),
        24 => Some(("I8", 1, 1)),
        25 => Some(("I16", 1, 2)),
        26 => Some(("I32", 1, 4)),
        27 => Some(("I64", 1, 8)),
        28 => Some(("F64", 1, 8)),
        29 => Some(("IQ1_M", 256, 0)),
        30 => Some(("BF16", 1, 2)),
        _ => None,
    }
}

/// Human name for a ggml tensor type code (`type#N` when unknown).
pub fn ggml_type_name(code: u32) -> (r: String)
    ensures
        r@ == ggml_name(code),
{
    match ggml_type(code) {
        Some((name, _, _)) => name.to_string(),
        None => {
            let mut s = "type#".to_string();
            push_dec(&mut s, code as u128);
            s
        },
    }
}

/// Block layout `(elements, bytes)` for a ggml type, when tracked.
pub fn ggml_type_size(code: u32) -> (r: Option<(u64, u64)>)
    ensures
        r == ggml_layout(code),
        r matches Some((elems, bytes)) ==> elems > 0 && bytes <= 1024,
{
    match ggml_type(code) {
        Some((_, elems, bytes)) => if bytes > 0 {
            Some((elems, bytes))
        } else {
            None
        },
        None => None,
    }
}

} // verus!
