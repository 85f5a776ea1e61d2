//! What the numbers of the format are: block layouts of tensor types and the
//! sizes that follow from them, wire codes and names of value types.

use crate::text::dec;
use crate::types::{
    checked_product, element_count, ggml_layout, ggml_name, label_text, name_of_type, tensor_bytes,
    type_code, type_of_name, value_as_u64, GgufType, SpecTensor, SpecValue,
};
use vstd::prelude::*;
use vstd::string::*;

verus! {

// ---------------------------------------------------------------------------
// Sizes of tensors
// ---------------------------------------------------------------------------

/// All numbers of a sequence multiplied.
pub open spec fn product(s: Seq<u64>) -> nat
    decreases s.len(),
{
    if s.len() == 0 {
        1
    } else {
        product(s.drop_last()) * (s.last() as nat)
    }
}

/// No number of a sequence is zero.
pub open spec fn all_positive(s: Seq<u64>) -> bool {
    forall|i: int| 0 <= i < s.len() ==> #[trigger] s[i] > 0
}

/// The first number can be taken out of a product.
proof fn lemma_product_first(s: Seq<u64>)
    requires
        s.len() > 0,
    ensures
        product(s) == s[0] as nat * product(s.skip(1)),
    decreases s.len(),
{
    if s.len() == 1 {
        assert(s.drop_last() =~= Seq::<u64>::empty());
        assert(s.skip(1) =~= Seq::<u64>::empty());
        assert(product(s.drop_last()) == 1);
        assert(1 * (s[0] as nat) == s[0] as nat * 1) by (nonlinear_arith);
    } else {
        let init = s.drop_last();
        lemma_product_first(init);
        assert(s.skip(1).drop_last() =~= init.skip(1));
        assert(s.skip(1).last() == s.last());
        let a = s[0] as nat;
        let b = product(init.skip(1));
        let c = s.last() as nat;
        assert((a * b) * c == a * (b * c)) by (nonlinear_arith);
    }
}

/// A product of positive numbers is positive.
proof fn lemma_product_positive(s: Seq<u64>)
    requires
        all_positive(s),
    ensures
        product(s) > 0,
    decreases s.len(),
{
    if s.len() > 0 {
        let init = s.drop_last();
        assert forall|i: int| 0 <= i < init.len() implies #[trigger] init[i] > 0 by {
            assert(init[i] == s[i]);
        }
        lemma_product_positive(init);
        assert(s[s.len() - 1] > 0);
        let p = product(init);
        let c = s.last() as nat;
        assert(p * c > 0) by (nonlinear_arith)
            requires
                p > 0,
                c > 0,
        ;
    }
}

/// What a checked product is, where it is anything; it is something where
/// nothing is zero and the result fits in 128 bits.
proof fn lemma_checked_product(start: nat, s: Seq<u64>)
    ensures
        checked_product(start, s) matches Some(p) ==> p == start * product(s),
        start <= u128::MAX && all_positive(s) && start * product(s) <= u128::MAX
            ==> checked_product(start, s) is Some,
    decreases s.len(),
{
    if s.len() == 0 {
        assert(start * 1 == start) by (nonlinear_arith);
    } else {
        let init = s.drop_last();
        let p = product(init);
        let c = s.last() as nat;
        lemma_checked_product(start, init);
        assert((start * p) * c == start * (p * c)) by (nonlinear_arith);
        if all_positive(s) {
            assert forall|i: int| 0 <= i < init.len() implies #[trigger] init[i] > 0 by {
                assert(init[i] == s[i]);
            }
            assert(s[s.len() - 1] > 0);
            assert(start * p <= start * (p * c)) by (nonlinear_arith)
                requires
                    c > 0,
            ;
        }
    }
}

/// A shape has as many elements as its dimensions multiply to; the count is
/// there wherever no dimension is zero and the number fits in 64 bits.
pub proof fn law_elements_are_the_product_of_the_dimensions(dims: Seq<u64>)
    ensures
        element_count(dims) matches Some(n) ==> n == product(dims),
        dims.len() > 0 && all_positive(dims) && product(dims) <= u64::MAX ==> element_count(
            dims,
        ) is Some,
        dims.len() == 0 ==> element_count(dims) is None,
        product(dims) > u64::MAX ==> element_count(dims) is None,
{
    lemma_checked_product(1, dims);
    let p = product(dims);
    assert(1 * p == p) by (nonlinear_arith);
}

/// A tensor is stored in blocks of `elems` elements, `bytes` bytes each: its
/// size says so, and is there wherever the first dimension is whole blocks, no
/// dimension is zero and the size fits in 64 bits.
pub open spec fn stored_as(t: SpecTensor, elems: nat, bytes: nat) -> bool {
    let n = product(t.dims);
    &&& tensor_bytes(t) matches Some(size) ==> size * elems == bytes * n
    &&& t.dims.len() > 0 && t.dims[0] as nat % elems == 0 && all_positive(t.dims) && bytes * n
        <= elems * u64::MAX ==> tensor_bytes(t) is Some
    &&& t.dims.len() == 0 || t.dims[0] as nat % elems != 0 ==> tensor_bytes(t) is None
}

/// What a layout says of a size.
proof fn lemma_stored_as(t: SpecTensor, elems: u64, bytes: u64)
    requires
        ggml_layout(t.type_code) == Some((elems, bytes)),
        0 < elems,
        0 < bytes <= 1024,
    ensures
        stored_as(t, elems as nat, bytes as nat),
{
    if t.dims.len() > 0 && t.dims[0] % elems == 0 {
        let ne0 = t.dims[0] as nat;
        let e = elems as nat;
        let y = bytes as nat;
        let q = ne0 / e;
        let rest = product(t.dims.skip(1));
        let n = product(t.dims);
        let start = q * y;
        lemma_product_first(t.dims);
        lemma_checked_product(start, t.dims.skip(1));
        vstd::arithmetic::div_mod::lemma_fundamental_div_mod(ne0 as int, e as int);
        assert(ne0 == e * q);
        assert((start * rest) * e == y * n) by (nonlinear_arith)
            requires
                start == q * y,
                n == ne0 * rest,
                ne0 == e * q,
        ;
        assert(start <= u128::MAX) by (nonlinear_arith)
            requires
                start == q * y,
                q <= u64::MAX,
                y <= 1024,
        ;
        if all_positive(t.dims) && y * n <= e * u64::MAX {
            assert forall|i: int| 0 <= i < t.dims.skip(1).len() implies #[trigger] t.dims.skip(
                1,
            )[i] > 0 by {
                assert(t.dims.skip(1)[i] == t.dims[i + 1]);
            }
            assert(start * rest <= u64::MAX) by (nonlinear_arith)
                requires
                    (start * rest) * e <= e * u64::MAX,
                    e > 0,
            ;
        }
    }
}

/// The block layouts that the format fixes: how many elements a block of each
/// tensor type holds, and in how many bytes. Other types have no known size.
pub proof fn law_block_layouts(code: u32)
    ensures
        code == 0 ==> ggml_layout(code) == Some((1u64, 4u64)),
        code == 1 ==> ggml_layout(code) == Some((1u64, 2u64)),
        code == 2 ==> ggml_layout(code) == Some((32u64, 18u64)),
        code == 3 ==> ggml_layout(code) == Some((32u64, 20u64)),
        code == 6 ==> ggml_layout(code) == Some((32u64, 22u64)),
        code == 7 ==> ggml_layout(code) == Some((32u64, 24u64)),
        code == 8 ==> ggml_layout(code) == Some((32u64, 34u64)),
        code == 9 ==> ggml_layout(code) == Some((32u64, 36u64)),
        code == 10 ==> ggml_layout(code) == Some((256u64, 84u64)),
        code == 11 ==> ggml_layout(code) == Some((256u64, 110u64)),
        code == 12 ==> ggml_layout(code) == Some((256u64, 144u64)),
        code == 13 ==> ggml_layout(code) == Some((256u64, 176u64)),
        code == 14 ==> ggml_layout(code) == Some((256u64, 210u64)),
        code == 15 ==> ggml_layout(code) == Some((256u64, 292u64)),
        code == 20 ==> ggml_layout(code) == Some((32u64, 18u64)),
        code == 23 ==> ggml_layout(code) == Some((256u64, 136u64)),
        code == 24 ==> ggml_layout(code) == Some((1u64, 1u64)),
        code == 25 ==> ggml_layout(code) == Some((1u64, 2u64)),
        code == 26 ==> ggml_layout(code) == Some((1u64, 4u64)),
        code == 27 ==> ggml_layout(code) == Some((1u64, 8u64)),
        code == 28 ==> ggml_layout(code) == Some((1u64, 8u64)),
        code == 30 ==> ggml_layout(code) == Some((1u64, 2u64)),
        code == 4 || code == 5 || code == 16 || code == 17 || code == 18 || code == 19 || code == 21 || code == 22 || code == 29 || code > 30 ==> ggml_layout(code) is None,
{
}

/// The size of a tensor, for every type whose block layout is known: a block of
/// so many elements takes so many bytes.
pub proof fn law_tensor_sizes(t: SpecTensor)
    ensures
        t.type_code == 0 ==> stored_as(t, 1, 4),
        t.type_code == 1 ==> stored_as(t, 1, 2),
        t.type_code == 2 ==> stored_as(t, 32, 18),
        t.type_code == 3 ==> stored_as(t, 32, 20),
        t.type_code == 6 ==> stored_as(t, 32, 22),
        t.type_code == 7 ==> stored_as(t, 32, 24),
        t.type_code == 8 ==> stored_as(t, 32, 34),
        t.type_code == 9 ==> stored_as(t, 32, 36),
        t.type_code == 10 ==> stored_as(t, 256, 84),
        t.type_code == 11 ==> stored_as(t, 256, 110),
        t.type_code == 12 ==> stored_as(t, 256, 144),
        t.type_code == 13 ==> stored_as(t, 256, 176),
        t.type_code == 14 ==> stored_as(t, 256, 210),
        t.type_code == 15 ==> stored_as(t, 256, 292),
        t.type_code == 20 ==> stored_as(t, 32, 18),
        t.type_code == 23 ==> stored_as(t, 256, 136),
        t.type_code == 24 ==> stored_as(t, 1, 1),
        t.type_code == 25 ==> stored_as(t, 1, 2),
        t.type_code == 26 ==> stored_as(t, 1, 4),
        t.type_code == 27 ==> stored_as(t, 1, 8),
        t.type_code == 28 ==> stored_as(t, 1, 8),
        t.type_code == 30 ==> stored_as(t, 1, 2),
        t.type_code == 4 || t.type_code == 5 || t.type_code == 16 || t.type_code == 17 || t.type_code == 18 || t.type_code == 19 || t.type_code == 21 || t.type_code == 22 || t.type_code == 29 || t.type_code > 30 ==> tensor_bytes(t) is None,
{
    if let Some((elems, bytes)) = ggml_layout(t.type_code) {
        lemma_stored_as(t, elems, bytes);
    }
}

/// The names of the tensor types; a type that is not known is named by its code.
pub proof fn law_tensor_type_names(code: u32)
    ensures
        code == 0 ==> ggml_name(code) == "F32"@,
        code == 1 ==> ggml_name(code) == "F16"@,
        code == 2 ==> ggml_name(code) == "Q4_0"@,
        code == 3 ==> ggml_name(code) == "Q4_1"@,
        code == 6 ==> ggml_name(code) == "Q5_0"@,
        code == 7 ==> ggml_name(code) == "Q5_1"@,
        code == 8 ==> ggml_name(code) == "Q8_0"@,
        code == 9 ==> ggml_name(code) == "Q8_1"@,
        code == 10 ==> ggml_name(code) == "Q2_K"@,
        code == 11 ==> ggml_name(code) == "Q3_K"@,
        code == 12 ==> ggml_name(code) == "Q4_K"@,
        code == 13 ==> ggml_name(code) == "Q5_K"@,
        code == 14 ==> ggml_name(code) == "Q6_K"@,
        code == 15 ==> ggml_name(code) == "Q8_K"@,
        code == 16 ==> ggml_name(code) == "IQ2_XXS"@,
        code == 17 ==> ggml_name(code) == "IQ2_XS"@,
        code == 18 ==> ggml_name(code) == "IQ3_XXS"@,
        code == 19 ==> ggml_name(code) == "IQ1_S"@,
        code == 20 ==> ggml_name(code) == "IQ4_NL"@,
        code == 21 ==> ggml_name(code) == "IQ3_S"@,
        code == 22 ==> ggml_name(code) == "IQ2_S"@,
        code == 23 ==> ggml_name(code) == "IQ4_XS"@,
        code == 24 ==> ggml_name(code) == "I8"@,
        code == 25 ==> ggml_name(code) == "I16"@,
        code == 26 ==> ggml_name(code) == "I32"@,
        code == 27 ==> ggml_name(code) == "I64"@,
        code == 28 ==> ggml_name(code) == "F64"@,
        code == 29 ==> ggml_name(code) == "IQ1_M"@,
        code == 30 ==> ggml_name(code) == "BF16"@,
        code == 4 || code == 5 || code > 30 ==> ggml_name(code) == "type#"@ + dec(code as nat),
{
}

// ---------------------------------------------------------------------------
// Types of values
// ---------------------------------------------------------------------------

/// The wire codes and the names of the value types.
pub proof fn law_value_type_numbers(ty: GgufType)
    ensures
        ty == GgufType::U8 ==> type_code(ty) == 0 && name_of_type(ty) == "u8"@,
        ty == GgufType::I8 ==> type_code(ty) == 1 && name_of_type(ty) == "i8"@,
        ty == GgufType::U16 ==> type_code(ty) == 2 && name_of_type(ty) == "u16"@,
        ty == GgufType::I16 ==> type_code(ty) == 3 && name_of_type(ty) == "i16"@,
        ty == GgufType::U32 ==> type_code(ty) == 4 && name_of_type(ty) == "u32"@,
        ty == GgufType::I32 ==> type_code(ty) == 5 && name_of_type(ty) == "i32"@,
        ty == GgufType::F32 ==> type_code(ty) == 6 && name_of_type(ty) == "f32"@,
        ty == GgufType::Bool ==> type_code(ty) == 7 && name_of_type(ty) == "bool"@,
        ty == GgufType::Str ==> type_code(ty) == 8 && name_of_type(ty) == "string"@,
        ty == GgufType::Array ==> type_code(ty) == 9 && name_of_type(ty) == "array"@,
        ty == GgufType::U64 ==> type_code(ty) == 10 && name_of_type(ty) == "u64"@,
        ty == GgufType::I64 ==> type_code(ty) == 11 && name_of_type(ty) == "i64"@,
        ty == GgufType::F64 ==> type_code(ty) == 12 && name_of_type(ty) == "f64"@,
        type_of_name("str"@) == Some(GgufType::Str),
{
    reveal_strlit("u8");
    reveal_strlit("i8");
    reveal_strlit("u16");
    reveal_strlit("i16");
    reveal_strlit("u32");
    reveal_strlit("i32");
    reveal_strlit("f32");
    reveal_strlit("bool");
    reveal_strlit("str");
    assert("u8"@.len() == 2 && "i8"@.len() == 2 && "bool"@.len() == 4 && "str"@.len() == 3);
    assert("u16"@[0] == 'u' && "i16"@[0] == 'i' && "u32"@[0] == 'u' && "i32"@[0] == 'i');
    assert("f32"@[0] == 'f' && "str"@[0] == 's');
}

/// What the type of a value is called.
pub proof fn law_type_labels(v: SpecValue)
    ensures
        v is U8 ==> label_text(v) == "u8"@,
        v is I8 ==> label_text(v) == "i8"@,
        v is U16 ==> label_text(v) == "u16"@,
        v is I16 ==> label_text(v) == "i16"@,
        v is U32 ==> label_text(v) == "u32"@,
        v is I32 ==> label_text(v) == "i32"@,
        v is F32 ==> label_text(v) == "f32"@,
        v is Bool ==> label_text(v) == "bool"@,
        v is Str ==> label_text(v) == "string"@,
        v is U64 ==> label_text(v) == "u64"@,
        v is I64 ==> label_text(v) == "i64"@,
        v is F64 ==> label_text(v) == "f64"@,
        v matches SpecValue::Array(GgufType::U8, _) ==> label_text(v) == "array<"@ + "u8"@ + ">"@,
        v matches SpecValue::Array(GgufType::I8, _) ==> label_text(v) == "array<"@ + "i8"@ + ">"@,
        v matches SpecValue::Array(GgufType::U16, _) ==> label_text(v) == "array<"@ + "u16"@ + ">"@,
        v matches SpecValue::Array(GgufType::I16, _) ==> label_text(v) == "array<"@ + "i16"@ + ">"@,
        v matches SpecValue::Array(GgufType::U32, _) ==> label_text(v) == "array<"@ + "u32"@ + ">"@,
        v matches SpecValue::Array(GgufType::I32, _) ==> label_text(v) == "array<"@ + "i32"@ + ">"@,
        v matches SpecValue::Array(GgufType::F32, _) ==> label_text(v) == "array<"@ + "f32"@ + ">"@,
        v matches SpecValue::Array(GgufType::Bool, _) ==> label_text(v) == "array<"@ + "bool"@ + ">"@,
        v matches SpecValue::Array(GgufType::Str, _) ==> label_text(v) == "array<"@ + "string"@ + ">"@,
        v matches SpecValue::Array(GgufType::Array, _) ==> label_text(v) == "array<"@ + "array"@ + ">"@,
        v matches SpecValue::Array(GgufType::U64, _) ==> label_text(v) == "array<"@ + "u64"@ + ">"@,
        v matches SpecValue::Array(GgufType::I64, _) ==> label_text(v) == "array<"@ + "i64"@ + ">"@,
        v matches SpecValue::Array(GgufType::F64, _) ==> label_text(v) == "array<"@ + "f64"@ + ">"@,
{
}

/// A value counts as the number `n` exactly when it is an integer of some width
/// that is `n`.
pub proof fn law_value_counts_as_its_number(v: SpecValue, n: u64)
    ensures
        value_as_u64(v) == Some(n) <==> match v {
            SpecValue::U8(x) => x == n,
            SpecValue::I8(x) => x == n,
            SpecValue::U16(x) => x == n,
            SpecValue::I16(x) => x == n,
            SpecValue::U32(x) => x == n,
            SpecValue::I32(x) => x == n,
            SpecValue::U64(x) => x == n,
            SpecValue::I64(x) => x == n,
            _ => false,
        },
        value_as_u64(v) is None ==> !(v is U8) && !(v is U16) && !(v is U32) && !(v is U64),
{
}

} // verus!
