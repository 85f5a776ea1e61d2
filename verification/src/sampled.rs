//! The sample file: it is read back as what it was made of, the verifier has nothing
//! to say against it, and it has the headroom that was asked for.

use crate::encoding::law_value_is_that_of_the_first_pair;
use crate::layout::law_full_write_carries_data_verbatim;
use crate::sizes::{law_tensor_sizes, product};
use crate::soundness::{law_no_errors_exactly_when_sound, sound};
use crate::template::lemma_chatml_len;
use crate::text::lemma_byte_len_bound;
use crate::types::{tensor_bytes, SpecKv, SpecValue};
use crate::verify::report_on;
use crate::wire::{alignment_of, head_of, value_of, wf_head, wf_kv, wf_tensor, HeadError, SpecHead};
use crate::writer::{
    pad_pair, padded_head, sample_data, sample_kvs, sample_tensors, stripped, with_reserve, PAD_KEY,
};
use vstd::prelude::*;
use vstd::string::*;
use vstd::utf8::*;

verus! {

/// The keys of the sample file differ, and none is that of the headroom.
proof fn lemma_sample_keys()
    ensures
        sample_kvs().len() == 9,
        forall|i: int, j: int|
            0 <= i < j < 9 ==> (#[trigger] sample_kvs()[i]).key != (#[trigger] sample_kvs()[j]).key,
        forall|i: int|
            0 <= i < 9 ==> (#[trigger] sample_kvs()[i]).key != PAD_KEY@ && 0
                < sample_kvs()[i].key.len() <= 30,
{
    reveal_strlit("general.architecture");
    reveal_strlit("general.name");
    reveal_strlit("general.alignment");
    reveal_strlit("general.file_type");
    reveal_strlit("sample.context_length");
    reveal_strlit("sample.embedding_length");
    reveal_strlit("sample.block_count");
    reveal_strlit("tokenizer.ggml.model");
    reveal_strlit("tokenizer.chat_template");
    reveal_strlit("chisel.pad");
    assert("general.architecture"@.len() == 20 && "general.architecture"@[0] == 'g');
    assert("general.name"@.len() == 12);
    assert("general.alignment"@.len() == 17 && "general.alignment"@[8] == 'a');
    assert("general.file_type"@.len() == 17 && "general.file_type"@[8] == 'f');
    assert("sample.context_length"@.len() == 21);
    assert("sample.embedding_length"@.len() == 23 && "sample.embedding_length"@[0] == 's');
    assert("sample.block_count"@.len() == 18);
    assert("tokenizer.ggml.model"@.len() == 20 && "tokenizer.ggml.model"@[0] == 't');
    assert("tokenizer.chat_template"@.len() == 23 && "tokenizer.chat_template"@[0] == 't');
    assert("chisel.pad"@.len() == 10);
}

/// Metadata without the key of the headroom stays as it is.
proof fn lemma_nothing_stripped(kvs: Seq<SpecKv>)
    requires
        forall|i: int| 0 <= i < kvs.len() ==> (#[trigger] kvs[i]).key != PAD_KEY@,
    ensures
        stripped(kvs) == kvs,
    decreases kvs.len(),
{
    if kvs.len() > 0 {
        let most = kvs.drop_last();
        assert forall|i: int| 0 <= i < most.len() implies (#[trigger] most[i]).key != PAD_KEY@ by {
            assert(most[i] == kvs[i]);
        }
        lemma_nothing_stripped(most);
        assert(kvs[kvs.len() - 1].key != PAD_KEY@);
        assert(most.push(kvs.last()) =~= kvs);
    } else {
        assert(stripped(kvs) =~= kvs);
    }
}

/// The values of the sample file are short.
proof fn lemma_sample_values(i: int)
    requires
        0 <= i < 9,
    ensures
        sample_kvs()[i].value is U32 || (sample_kvs()[i].value matches SpecValue::Str(s) && s.len()
            <= 400),
{
    reveal_strlit("sample");
    reveal_strlit("gguf-chisel sample model");
    reveal_strlit("none");
    lemma_chatml_len();
    assert(i == 0 || i == 1 || i == 2 || i == 3 || i == 4 || i == 5 || i == 6 || i == 7 || i == 8);
}

/// The metadata of the sample file, with headroom, can be read.
proof fn lemma_sample_accepted(reserve: nat)
    requires
        reserve <= 268435456,
    ensures
        wf_head(3, with_reserve(sample_kvs(), reserve), sample_tensors()),
        with_reserve(sample_kvs(), reserve) == if reserve > 0 {
            sample_kvs().push(pad_pair(reserve))
        } else {
            sample_kvs()
        },
{
    reveal_strlit("chisel.pad");
    reveal_strlit("token_embd.weight");
    reveal_strlit("output.weight");
    lemma_sample_keys();
    lemma_nothing_stripped(sample_kvs());
    let kvs = with_reserve(sample_kvs(), reserve);
    let tensors = sample_tensors();
    assert forall|i: int| 0 <= i < kvs.len() implies wf_kv(#[trigger] kvs[i]) by {
        if i < 9 {
            assert(kvs[i] == sample_kvs()[i]);
            lemma_byte_len_bound(kvs[i].key);
            lemma_sample_values(i);
            if let SpecValue::Str(s) = kvs[i].value {
                lemma_byte_len_bound(s);
            }
        } else {
            let spaces = Seq::new(reserve, |i: int| ' ');
            assert(kvs[i] == pad_pair(reserve));
            lemma_byte_len_bound(kvs[i].key);
            assert(is_ascii_chars(spaces));
            is_ascii_chars_encode_utf8(spaces);
        }
    }
    assert forall|i: int| 0 <= i < tensors.len() implies wf_tensor(#[trigger] tensors[i]) by {
        lemma_byte_len_bound(tensors[i].name);
        assert(i == 0 || i == 1);
    }
}

/// The first value under a key of the sample file.
proof fn lemma_sample_value(kvs: Seq<SpecKv>, i: int)
    requires
        0 <= i < 9,
        kvs == sample_kvs() || exists|n: nat| kvs == sample_kvs().push(#[trigger] pad_pair(n)),
    ensures
        value_of(kvs, sample_kvs()[i].key) == Some(sample_kvs()[i].value),
{
    lemma_sample_keys();
    let key = sample_kvs()[i].key;
    assert(kvs[i] == sample_kvs()[i]);
    assert forall|j: int| 0 <= j < i implies (#[trigger] kvs[j]).key != key by {
        assert(kvs[j] == sample_kvs()[j]);
    }
    law_value_is_that_of_the_first_pair(kvs, key, i);
}

/// The tensors of the sample file fill its data: 128 bytes and 32.
proof fn lemma_sample_tensor_sizes()
    ensures
        tensor_bytes(sample_tensors()[0]) == Some(128u64),
        tensor_bytes(sample_tensors()[1]) == Some(32u64),
{
    let a = sample_tensors()[0];
    let b = sample_tensors()[1];
    law_tensor_sizes(a);
    law_tensor_sizes(b);
    reveal_with_fuel(product, 3);
    assert(a.dims.drop_last().len() == 1);
}

/// The sample file is read back with all of its metadata and tensors, its data is
/// the bytes of its tensors, and it is structurally sound.
pub proof fn law_the_sample_is_sound(reserve: nat)
    requires
        reserve <= 268435456,
    ensures
        ({
            let kvs = with_reserve(sample_kvs(), reserve);
            let file = padded_head(3, kvs, sample_tensors(), 32) + sample_data();
            head_of(file) matches Ok(h) && {
                &&& h.kvs == kvs
                &&& h.tensors == sample_tensors()
                &&& h.alignment == 32
                &&& file.len() - h.data_start == 160
                &&& file.skip(h.data_start) == sample_data()
                &&& sound(h, file.len())
                &&& report_on(h, file.len()).errors.len() == 0
            }
        }),
{
    let stored = with_reserve(sample_kvs(), reserve);
    let prefix = padded_head(3, stored, sample_tensors(), 32);
    let file = prefix + sample_data();
    lemma_sample_accepted(reserve);
    lemma_sample_value(sample_kvs(), 2);
    assert(alignment_of(sample_kvs(), 0) == Ok::<u64, HeadError>(32));
    law_full_write_carries_data_verbatim(
        3,
        sample_kvs(),
        sample_tensors(),
        32,
        reserve,
        sample_data(),
    );
    let h = head_of(file)->Ok_0;
    assert(file.skip(h.data_start) =~= sample_data());
    lemma_sample_sound(h, file.len(), reserve);
    law_no_errors_exactly_when_sound(h, file.len());
}

/// A head with the contents of the sample file is sound.
proof fn lemma_sample_sound(h: SpecHead, file_len: nat, reserve: nat)
    requires
        h.kvs == (if reserve > 0 {
            sample_kvs().push(pad_pair(reserve))
        } else {
            sample_kvs()
        }),
        h.tensors == sample_tensors(),
        h.alignment == 32,
        file_len - h.data_start == 160,
    ensures
        sound(h, file_len),
{
    reveal_strlit("chisel.pad");
    reveal_strlit("token_embd.weight");
    reveal_strlit("output.weight");
    lemma_sample_keys();
    lemma_sample_tensor_sizes();
    lemma_sample_value(h.kvs, 8);
    let kvs = h.kvs;
    let pad = pad_pair(reserve);
    assert forall|i: int| 0 <= i < kvs.len() implies (#[trigger] kvs[i]).key.len() > 0 by {
        if i < 9 {
            assert(kvs[i] == sample_kvs()[i]);
        } else {
            assert(kvs[i] == pad);
        }
    }
    assert forall|i: int, j: int| 0 <= i < j < kvs.len() implies (#[trigger] kvs[i]).key != (
    #[trigger] kvs[j]).key by {
        assert(kvs[i] == sample_kvs()[i]);
        if j < 9 {
            assert(kvs[j] == sample_kvs()[j]);
        } else {
            assert(kvs[j] == pad);
        }
    }
    let a = h.tensors[0];
    let b = h.tensors[1];
    assert(!a.dims.contains(0));
    assert(!b.dims.contains(0));
    assert(a.name.len() == 17 && b.name.len() == 13);
}

} // verus!
