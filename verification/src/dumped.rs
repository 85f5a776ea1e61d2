//! What a dump tells: that looking it up gives back the head that was dumped, and
//! what values, sizes and listings look like.

use crate::dump::{dump_of, json_of, kv_member, tensor_json};
use crate::float::widened;
use crate::json::{document, member, render, SpecJson};
use crate::reparse::{law_dump_is_read_back, plain, plain_items, plain_pairs};
use crate::types::{ggml_name, label_text, tensor_bytes, SpecKv, SpecTensor, SpecValue};
use crate::wire::{wf_head, SpecHead};
use vstd::prelude::*;
use vstd::string::*;

verus! {

// ---------------------------------------------------------------------------
// Looking things up
// ---------------------------------------------------------------------------

/// The value of a field of a JSON object.
pub open spec fn field(doc: SpecJson, name: Seq<char>) -> Option<SpecJson> {
    match doc {
        SpecJson::Obj(pairs) => member(pairs, name),
        _ => None,
    }
}

/// A member is the first with its name.
proof fn lemma_member_at(pairs: Seq<(Seq<char>, SpecJson)>, k: int)
    requires
        0 <= k < pairs.len(),
        forall|j: int| 0 <= j < k ==> (#[trigger] pairs[j]).0 != pairs[k].0,
    ensures
        member(pairs, pairs[k].0) == Some(pairs[k].1),
    decreases k,
{
    if k > 0 {
        let rest = pairs.skip(1);
        assert(pairs[0].0 != pairs[k].0);
        assert(rest[k - 1] == pairs[k]);
        assert forall|j: int| 0 <= j < k - 1 implies (#[trigger] rest[j]).0 != rest[k - 1].0 by {
            assert(rest[j] == pairs[j + 1]);
        }
        lemma_member_at(rest, k - 1);
    }
}

/// The field names of a dump.
proof fn lemma_field_names()
    ensures
        "gguf_version"@.len() == 12,
        "alignment"@.len() == 9,
        "data_start"@.len() == 10 && "data_start"@[5] == 's',
        "data_bytes"@.len() == 10 && "data_bytes"@[5] == 'b',
        "metadata"@.len() == 8,
        "tensors"@.len() == 7,
        "name"@.len() == 4 && "name"@[0] == 'n',
        "type"@.len() == 4 && "type"@[0] == 't',
        "dims"@.len() == 4 && "dims"@[0] == 'd',
        "offset"@.len() == 6,
        "bytes"@.len() == 5 && "bytes"@[0] == 'b',
        "value"@.len() == 5 && "value"@[0] == 'v',
{
    reveal_strlit("gguf_version");
    reveal_strlit("alignment");
    reveal_strlit("data_start");
    reveal_strlit("data_bytes");
    reveal_strlit("metadata");
    reveal_strlit("tensors");
    reveal_strlit("name");
    reveal_strlit("type");
    reveal_strlit("dims");
    reveal_strlit("offset");
    reveal_strlit("bytes");
    reveal_strlit("value");
}

/// What a dumped tensor tells of the tensor.
pub open spec fn tells_tensor(doc: SpecJson, t: SpecTensor) -> bool {
    &&& field(doc, "name"@) == Some(SpecJson::Str(t.name))
    &&& field(doc, "type"@) == Some(SpecJson::Str(ggml_name(t.type_code)))
    &&& field(doc, "dims"@) matches Some(SpecJson::Arr(dims)) && dims.len() == t.dims.len()
        && forall|j: int|
        0 <= j < t.dims.len() ==> #[trigger] dims[j] == SpecJson::Int(t.dims[j] as int)
    &&& field(doc, "offset"@) == Some(SpecJson::Int(t.offset as int))
    &&& field(doc, "bytes"@) == Some(
        match tensor_bytes(t) {
            Some(size) => SpecJson::Int(size as int),
            None => SpecJson::Null,
        },
    )
}

/// What a dumped pair tells of the pair.
pub open spec fn tells_pair(pair: (Seq<char>, SpecJson), kv: SpecKv) -> bool {
    &&& pair.0 == kv.key
    &&& field(pair.1, "type"@) == Some(SpecJson::Str(label_text(kv.value)))
    &&& field(pair.1, "value"@) == Some(plain(json_of(kv.value)))
}

/// What survives of an object and of an array, part by part.
proof fn lemma_plain_parts(pairs: Seq<(Seq<char>, SpecJson)>, items: Seq<SpecJson>)
    ensures
        plain(SpecJson::Obj(pairs)) == SpecJson::Obj(plain_pairs(pairs)),
        plain(SpecJson::Arr(items)) == SpecJson::Arr(plain_items(items)),
{
    assert(plain(SpecJson::Obj(pairs))->Obj_0 =~= plain_pairs(pairs));
    assert(plain(SpecJson::Arr(items))->Arr_0 =~= plain_items(items));
}

/// A field of what survives of an object.
pub proof fn lemma_field_at(pairs: Seq<(Seq<char>, SpecJson)>, k: int)
    requires
        0 <= k < pairs.len(),
        forall|j: int| 0 <= j < k ==> (#[trigger] pairs[j]).0 != pairs[k].0,
    ensures
        field(plain(SpecJson::Obj(pairs)), pairs[k].0) == Some(plain(pairs[k].1)),
{
    let out = plain_pairs(pairs);
    lemma_plain_parts(pairs, Seq::empty());
    assert forall|j: int| 0 <= j < k implies (#[trigger] out[j]).0 != out[k].0 by {
        assert(pairs[j].0 != pairs[k].0);
    }
    lemma_member_at(out, k);
}

/// A dumped tensor tells the tensor.
proof fn lemma_tells_tensor(t: SpecTensor)
    ensures
        tells_tensor(plain(tensor_json(t)), t),
{
    lemma_field_names();
    let pairs = tensor_json(t)->Obj_0;
    assert(pairs.len() == 5);
    assert(pairs[0].0 == "name"@ && pairs[1].0 == "type"@ && pairs[2].0 == "dims"@);
    assert(pairs[3].0 == "offset"@ && pairs[4].0 == "bytes"@);
    lemma_field_at(pairs, 0);
    lemma_field_at(pairs, 1);
    lemma_field_at(pairs, 2);
    lemma_field_at(pairs, 3);
    lemma_field_at(pairs, 4);
    let dims = pairs[2].1->Arr_0;
    lemma_plain_parts(pairs, dims);
    assert forall|j: int| 0 <= j < t.dims.len() implies #[trigger] plain_items(dims)[j]
        == SpecJson::Int(t.dims[j] as int) by {
        assert(dims[j] == SpecJson::Int(t.dims[j] as int));
    }
}

/// A dumped pair tells the pair.
proof fn lemma_tells_pair(kv: SpecKv)
    ensures
        tells_pair((kv.key, plain(kv_member(kv).1)), kv),
{
    lemma_field_names();
    let pairs = kv_member(kv).1->Obj_0;
    assert(pairs.len() == 2);
    assert(pairs[0].0 == "type"@ && pairs[1].0 == "value"@);
    lemma_field_at(pairs, 0);
    lemma_field_at(pairs, 1);
}

/// What a dumped head tells of the head.
pub open spec fn tells_head(doc: SpecJson, h: SpecHead, file_len: nat) -> bool {
    &&& field(doc, "gguf_version"@) == Some(SpecJson::Int(h.version as int))
    &&& field(doc, "alignment"@) == Some(SpecJson::Int(h.alignment as int))
    &&& field(doc, "data_start"@) == Some(SpecJson::Int(h.data_start))
    &&& field(doc, "data_bytes"@) == Some(
        SpecJson::Int(
            if h.data_start <= file_len {
                file_len - h.data_start
            } else {
                0
            },
        ),
    )
    &&& field(doc, "metadata"@) matches Some(SpecJson::Obj(pairs)) && pairs.len() == h.kvs.len()
        && forall|i: int| 0 <= i < h.kvs.len() ==> tells_pair(#[trigger] pairs[i], h.kvs[i])
    &&& field(doc, "tensors"@) matches Some(SpecJson::Arr(items)) && items.len() == h.tensors.len()
        && forall|i: int|
        0 <= i < h.tensors.len() ==> tells_tensor(#[trigger] items[i], h.tensors[i])
}

/// A dump, read as JSON, tells the head: its version, alignment and data section,
/// every metadata pair with its type and value, and every tensor with its name,
/// type, dimensions, offset and size, in order.
pub proof fn law_dump_tells_the_head(h: SpecHead, file_len: nat)
    requires
        wf_head(h.version, h.kvs, h.tensors),
        0 <= h.data_start <= u64::MAX,
        file_len <= u64::MAX,
    ensures
        document(render(dump_of(h, file_len), Seq::empty(), true)) matches Ok(doc) && tells_head(
            doc,
            h,
            file_len,
        ),
{
    law_dump_is_read_back(h, file_len);
    lemma_tells_head(h, file_len);
}

/// What survives of a dump tells the head.
proof fn lemma_tells_head(h: SpecHead, file_len: nat)
    ensures
        tells_head(plain(dump_of(h, file_len)), h, file_len),
{
    lemma_field_names();
    let fields = dump_of(h, file_len)->Obj_0;
    assert(fields.len() == 6);
    assert(fields[0].0 == "gguf_version"@ && fields[1].0 == "alignment"@);
    assert(fields[2].0 == "data_start"@ && fields[3].0 == "data_bytes"@);
    assert(fields[4].0 == "metadata"@ && fields[5].0 == "tensors"@);
    lemma_field_at(fields, 0);
    lemma_field_at(fields, 1);
    lemma_field_at(fields, 2);
    lemma_field_at(fields, 3);
    lemma_field_at(fields, 4);
    lemma_field_at(fields, 5);
    let pairs = fields[4].1->Obj_0;
    let items = fields[5].1->Arr_0;
    lemma_plain_parts(pairs, items);
    assert forall|i: int| 0 <= i < h.kvs.len() implies tells_pair(
        #[trigger] plain_pairs(pairs)[i],
        h.kvs[i],
    ) by {
        lemma_tells_pair(h.kvs[i]);
        assert(pairs[i] == kv_member(h.kvs[i]));
    }
    assert forall|i: int| 0 <= i < h.tensors.len() implies tells_tensor(
        #[trigger] plain_items(items)[i],
        h.tensors[i],
    ) by {
        lemma_tells_tensor(h.tensors[i]);
        assert(items[i] == tensor_json(h.tensors[i]));
    }
}

/// Integers are dumped as themselves, bools and strings too, arrays item by item;
/// doubles as themselves, and singles as the doubles that equal them.
pub proof fn law_values_are_dumped_as_themselves(v: SpecValue)
    ensures
        match v {
            SpecValue::U8(x) => json_of(v) == SpecJson::Int(x as int),
            SpecValue::I8(x) => json_of(v) == SpecJson::Int(x as int),
            SpecValue::U16(x) => json_of(v) == SpecJson::Int(x as int),
            SpecValue::I16(x) => json_of(v) == SpecJson::Int(x as int),
            SpecValue::U32(x) => json_of(v) == SpecJson::Int(x as int),
            SpecValue::I32(x) => json_of(v) == SpecJson::Int(x as int),
            SpecValue::U64(x) => json_of(v) == SpecJson::Int(x as int),
            SpecValue::I64(x) => json_of(v) == SpecJson::Int(x as int),
            SpecValue::F32(x) => json_of(v) == SpecJson::Float(widened(x)),
            SpecValue::F64(x) => json_of(v) == SpecJson::Float(x),
            SpecValue::Bool(x) => json_of(v) == SpecJson::Bool(x),
            SpecValue::Str(s) => json_of(v) == SpecJson::Str(s),
            SpecValue::Array(_, items) => json_of(v) matches SpecJson::Arr(out) && out.len()
                == items.len() && forall|i: int|
                0 <= i < items.len() ==> #[trigger] out[i] == json_of(items[i]),
        },
{
}

/// A dump determines the head: two heads with the same dump have the same version,
/// alignment, data offset, keys and types of values, and tensors of the same
/// names, dimensions and offsets.
pub proof fn law_dump_determines_the_head(a: SpecHead, b: SpecHead, len_a: nat, len_b: nat)
    requires
        wf_head(a.version, a.kvs, a.tensors),
        wf_head(b.version, b.kvs, b.tensors),
        0 <= a.data_start <= u64::MAX,
        0 <= b.data_start <= u64::MAX,
        len_a <= u64::MAX,
        len_b <= u64::MAX,
        render(dump_of(a, len_a), Seq::empty(), true) == render(
            dump_of(b, len_b),
            Seq::empty(),
            true,
        ),
    ensures
        a.version == b.version,
        a.alignment == b.alignment,
        a.data_start == b.data_start,
        a.kvs.len() == b.kvs.len(),
        forall|i: int|
            0 <= i < a.kvs.len() ==> (#[trigger] a.kvs[i]).key == b.kvs[i].key && label_text(
                a.kvs[i].value,
            ) == label_text(b.kvs[i].value),
        a.tensors.len() == b.tensors.len(),
        forall|i: int|
            0 <= i < a.tensors.len() ==> {
                &&& (#[trigger] a.tensors[i]).name == b.tensors[i].name
                &&& a.tensors[i].dims == b.tensors[i].dims
                &&& a.tensors[i].offset == b.tensors[i].offset
            },
{
    law_dump_tells_the_head(a, len_a);
    law_dump_tells_the_head(b, len_b);
    let doc = document(render(dump_of(a, len_a), Seq::empty(), true))->Ok_0;
    assert(tells_head(doc, a, len_a) && tells_head(doc, b, len_b));
    let pairs = field(doc, "metadata"@)->Some_0->Obj_0;
    assert forall|i: int| 0 <= i < a.kvs.len() implies (#[trigger] a.kvs[i]).key == b.kvs[i].key
        && label_text(a.kvs[i].value) == label_text(b.kvs[i].value) by {
        assert(tells_pair(pairs[i], a.kvs[i]) && tells_pair(pairs[i], b.kvs[i]));
    }
    let items = field(doc, "tensors"@)->Some_0->Arr_0;
    assert forall|i: int| 0 <= i < a.tensors.len() implies {
        &&& (#[trigger] a.tensors[i]).name == b.tensors[i].name
        &&& a.tensors[i].dims == b.tensors[i].dims
        &&& a.tensors[i].offset == b.tensors[i].offset
    } by {
        let t = a.tensors[i];
        let u = b.tensors[i];
        assert(tells_tensor(items[i], t) && tells_tensor(items[i], u));
        let dims = field(items[i], "dims"@)->Some_0->Arr_0;
        assert forall|j: int| 0 <= j < t.dims.len() implies t.dims[j] == u.dims[j] by {
            assert(dims[j] == SpecJson::Int(t.dims[j] as int));
            assert(dims[j] == SpecJson::Int(u.dims[j] as int));
        }
        assert(t.dims =~= u.dims);
    }
}

} // verus!
