//! What the fields of a model mean: its topology, the sizes of its parts, and the device
//! of each layer.
use crate::float::Single;
use crate::gguf::{are_numbers, block_of, bytes_where, device_from, device_of, first_value};
use crate::gguf::{offsets_ascend, share_total, shares, size_of, within, GgufInfo, TensorSummary, Value};
use crate::laws::bandwidth::proportions_together;
use crate::model_detect::{DetectedModel, HfConfig};
use crate::path;
use crate::text;
use vstd::prelude::*;

verus! {

/// The first entry with that key is the number `n`.
pub open spec fn tells(entries: Seq<(Seq<char>, Value)>, key: Seq<char>, n: usize) -> bool {
    exists|i: int|
        0 <= i < entries.len() && (#[trigger] entries[i]).0 == key && (entries[i].1 == Value::U(
            n as u64,
        ) || entries[i].1 == Value::I(n as i64) && n <= i64::MAX) && silent_before(entries, key, i)
}

/// The first entry with that key is the text `s`.
pub open spec fn names(entries: Seq<(Seq<char>, Value)>, key: Seq<char>, s: Seq<char>) -> bool {
    exists|i: int|
        0 <= i < entries.len() && (#[trigger] entries[i]).0 == key && entries[i].1 == Value::S(s)
            && silent_before(entries, key, i)
}

/// None of the first `k` entries has that key.
pub open spec fn silent_before(entries: Seq<(Seq<char>, Value)>, key: Seq<char>, k: int) -> bool {
    forall|j: int| 0 <= j < k ==> (#[trigger] entries[j]).0 != key
}

/// No entry has that key.
pub open spec fn silent(entries: Seq<(Seq<char>, Value)>, key: Seq<char>) -> bool {
    silent_before(entries, key, entries.len() as int)
}

/// Of several entries with one key the first decides; a key without an entry has no value.
pub proof fn the_first_entry_decides(entries: Seq<(Seq<char>, Value)>, key: Seq<char>, i: int)
    requires
        0 <= i <= entries.len(),
        silent_before(entries, key, i),
    ensures
        i < entries.len() && entries[i].0 == key ==> first_value(entries, key) == Some(
            entries[i].1,
        ),
        i == entries.len() ==> first_value(entries, key) is None,
    decreases entries.len(),
{
    if entries.len() > 0 && i > 0 {
        assert(entries[0].0 != key);
        let rest = entries.drop_first();
        assert forall|j: int| 0 <= j < i - 1 implies (#[trigger] rest[j]).0 != key by {
            assert(entries[j + 1].0 != key);
        }
        the_first_entry_decides(rest, key, i - 1);
    }
}

proof fn lemma_tells(entries: Seq<(Seq<char>, Value)>, key: Seq<char>)
    ensures
        forall|n: usize|
            #[trigger] tells(entries, key, n) ==> crate::gguf::count_under(entries, key) == Some(n),
        forall|s: Seq<char>| #[trigger]
            names(entries, key, s) ==> crate::gguf::text_under(entries, key) == Some(s),
        silent(entries, key) ==> crate::gguf::count_under(entries, key) is None
            && crate::gguf::text_under(entries, key) is None,
{
    assert forall|n: usize| #[trigger] tells(entries, key, n) implies crate::gguf::count_under(
        entries,
        key,
    ) == Some(n) by {
        let i = choose|i: int|
            0 <= i < entries.len() && (#[trigger] entries[i]).0 == key && (entries[i].1
                == Value::U(n as u64) || entries[i].1 == Value::I(n as i64) && n <= i64::MAX)
                && silent_before(entries, key, i);
        the_first_entry_decides(entries, key, i);
    }
    assert forall|s: Seq<char>| #[trigger]
        names(entries, key, s) implies crate::gguf::text_under(entries, key) == Some(s) by {
        let i = choose|i: int|
            0 <= i < entries.len() && (#[trigger] entries[i]).0 == key && entries[i].1
                == Value::S(s) && silent_before(entries, key, i);
        the_first_entry_decides(entries, key, i);
    }
    if silent(entries, key) {
        the_first_entry_decides(entries, key, entries.len() as int);
    }
}

/// Each field of a model's topology is the number under the key of its own that starts
/// with the architecture. What the file does not tell is nothing, except that there are
/// as many heads for keys and values as there are heads.
pub proof fn each_field_has_its_key(
    info: GgufInfo,
    entries: Seq<(Seq<char>, Value)>,
    file: Seq<char>,
    arch: Seq<char>,
    n: usize,
)
    requires
        info.describes(entries, file),
        names(entries, "general.architecture"@, arch),
        arch.len() > 0,
    ensures
        info.architecture@ == arch,
        tells(entries, arch + "."@ + "block_count"@, n) ==> info.n_layers == n,
        tells(entries, arch + "."@ + "attention.head_count"@, n) ==> info.n_heads == n,
        tells(entries, arch + "."@ + "attention.head_count_kv"@, n) ==> info.n_kv_heads == n,
        tells(entries, arch + "."@ + "expert_count"@, n) ==> info.n_experts == n,
        tells(entries, arch + "."@ + "expert_used_count"@, n) ==> info.n_experts_used == n,
        tells(entries, arch + "."@ + "context_length"@, n) ==> info.ctx_train == n,
        tells(entries, arch + "."@ + "embedding_length"@, n) ==> info.n_embd == n,
        tells(entries, arch + "."@ + "nextn_predict_layers"@, n) ==> info.n_mtp == n,
        silent(entries, arch + "."@ + "block_count"@) && tells(entries, "llama.block_count"@, n)
            ==> info.n_layers == n,
        silent(entries, arch + "."@ + "attention.head_count"@) ==> info.n_heads == 0,
        silent(entries, arch + "."@ + "attention.head_count_kv"@) ==> info.n_kv_heads
            == info.n_heads,
        silent(entries, arch + "."@ + "expert_count"@) ==> info.n_experts == 0,
        silent(entries, arch + "."@ + "expert_used_count"@) ==> info.n_experts_used == 0,
        silent(entries, arch + "."@ + "context_length"@) ==> info.ctx_train == 0,
        silent(entries, arch + "."@ + "embedding_length"@) ==> info.n_embd == 0,
        silent(entries, arch + "."@ + "nextn_predict_layers"@) ==> info.n_mtp == 0,
{
    lemma_tells(entries, "general.architecture"@);
    lemma_tells(entries, arch + "."@ + "block_count"@);
    lemma_tells(entries, "llama.block_count"@);
    lemma_tells(entries, arch + "."@ + "attention.head_count"@);
    lemma_tells(entries, arch + "."@ + "attention.head_count_kv"@);
    lemma_tells(entries, arch + "."@ + "expert_count"@);
    lemma_tells(entries, arch + "."@ + "expert_used_count"@);
    lemma_tells(entries, arch + "."@ + "context_length"@);
    lemma_tells(entries, arch + "."@ + "embedding_length"@);
    lemma_tells(entries, arch + "."@ + "nextn_predict_layers"@);
}

/// A model goes by its own name, else by its base name, else by the stem of its file.
pub proof fn a_model_goes_by_its_name(
    info: GgufInfo,
    entries: Seq<(Seq<char>, Value)>,
    file: Seq<char>,
    s: Seq<char>,
)
    requires
        info.describes(entries, file),
    ensures
        names(entries, "general.name"@, s) ==> info.name@ == s,
        silent(entries, "general.name"@) && names(entries, "general.basename"@, s) ==> info.name@
            == s,
        silent(entries, "general.name"@) && silent(entries, "general.basename"@)
            && path::file_stem(file) == Some(s) ==> info.name@ == s,
        silent(entries, "general.architecture"@) ==> info.architecture@.len() == 0,
{
    lemma_tells(entries, "general.name"@);
    lemma_tells(entries, "general.basename"@);
    lemma_tells(entries, "general.architecture"@);
}

/// The bytes from the start of tensor `i` to that of the next, or to the end.
pub open spec fn length(list: Seq<(Seq<char>, u64)>, data_len: int, i: int) -> int {
    if i + 1 < list.len() {
        list[i + 1].1 - list[i].1
    } else {
        data_len - list[i].1
    }
}

/// The bytes of those of the first `k` tensors whose names hold `part`.
pub open spec fn named_bytes(
    list: Seq<(Seq<char>, u64)>,
    data_len: int,
    part: Seq<char>,
    k: int,
) -> int
    decreases k,
{
    if k <= 0 {
        0
    } else {
        named_bytes(list, data_len, part, k - 1) + if text::has_part(list[k - 1].0, part) {
            length(list, data_len, k - 1)
        } else {
            0
        }
    }
}

/// The bytes of those of the first `k` tensors whose names start with `part`.
pub open spec fn headed_bytes(
    list: Seq<(Seq<char>, u64)>,
    data_len: int,
    part: Seq<char>,
    k: int,
) -> int
    decreases k,
{
    if k <= 0 {
        0
    } else {
        headed_bytes(list, data_len, part, k - 1) + if text::has_at(list[k - 1].0, part, 0) {
            length(list, data_len, k - 1)
        } else {
            0
        }
    }
}

/// The bytes of those of the first `k` tensors that belong to block `n`.
pub open spec fn block_bytes(list: Seq<(Seq<char>, u64)>, data_len: int, n: nat, k: int) -> int
    decreases k,
{
    if k <= 0 {
        0
    } else {
        block_bytes(list, data_len, n, k - 1) + if block_of(list[k - 1].0) == Some(n) {
            length(list, data_len, k - 1)
        } else {
            0
        }
    }
}

proof fn lemma_parts(list: Seq<(Seq<char>, u64)>, data_len: int, k: int)
    requires
        0 <= k <= list.len(),
        offsets_ascend(list),
        list.len() > 0 ==> list.last().1 <= data_len,
    ensures
        bytes_where(list, data_len, crate::gguf::expert_tensor(), k) == named_bytes(
            list,
            data_len,
            "_exps"@,
            k,
        ),
        bytes_where(list, data_len, crate::gguf::embedding_tensor(), k) == headed_bytes(
            list,
            data_len,
            "token_embd"@,
            k,
        ),
        k < list.len() ==> bytes_where(list, data_len, crate::gguf::any_tensor(), k) == list[k].1
            - list[0].1,
        k == list.len() && k > 0 ==> bytes_where(list, data_len, crate::gguf::any_tensor(), k)
            == data_len - list[0].1,
    decreases k,
{
    if k > 0 {
        lemma_parts(list, data_len, k - 1);
        assert(list[k - 1].1 <= list.last().1);
        if k < list.len() {
            assert(list[k - 1].1 <= list[k].1);
        }
        assert(size_of(list, data_len, k - 1) == length(list, data_len, k - 1));
    }
}

proof fn lemma_block(list: Seq<(Seq<char>, u64)>, data_len: int, n: nat, k: int)
    requires
        0 <= k <= list.len(),
        offsets_ascend(list),
        list.len() > 0 ==> list.last().1 <= data_len,
    ensures
        bytes_where(list, data_len, crate::gguf::tensor_of_block(n as int), k) == block_bytes(
            list,
            data_len,
            n,
            k,
        ),
    decreases k,
{
    if k > 0 {
        lemma_block(list, data_len, n, k - 1);
        assert(list[k - 1].1 <= list.last().1);
        if k < list.len() {
            assert(list[k - 1].1 <= list[k].1);
        }
    }
}

/// A tensor takes the bytes up to the start of the next one. The experts are the tensors
/// with `_exps` in their names, the embedding is those whose names start with
/// `token_embd`, and a block is the tensors with its number; each takes what its tensors
/// take, and all together what lies behind the start of the first.
pub proof fn parts_take_what_their_tensors_take(
    s: TensorSummary,
    list: Seq<(Seq<char>, u64)>,
    data_len: int,
)
    requires
        s.sums(list, data_len, list.len() as int),
        offsets_ascend(list),
        list.len() > 0,
        list.last().1 <= data_len,
    ensures
        s.total_bytes == data_len - list[0].1,
        s.expert_bytes == named_bytes(list, data_len, "_exps"@, list.len() as int),
        s.embd_bytes == headed_bytes(list, data_len, "token_embd"@, list.len() as int),
        forall|n: int|
            0 <= n < s.block_bytes@.len() ==> #[trigger] s.block_bytes@[n] == block_bytes(
                list,
                data_len,
                n as nat,
                list.len() as int,
            ),
{
    lemma_parts(list, data_len, list.len() as int);
    assert forall|n: int| 0 <= n < s.block_bytes@.len() implies #[trigger] s.block_bytes@[n]
        == block_bytes(list, data_len, n as nat, list.len() as int) by {
        lemma_block(list, data_len, n as nat, list.len() as int);
    }
}

/// Every tensor with a block number has a place among the blocks, and the last block has
/// a tensor.
pub proof fn every_block_has_its_place(list: Seq<(Seq<char>, u64)>, k: int)
    requires
        0 <= k <= list.len(),
    ensures
        forall|i: int|
            0 <= i < k && block_of((#[trigger] list[i]).0) is Some ==> block_of(list[i].0)->0
                < crate::gguf::blocks_in(list, k),
        crate::gguf::blocks_in(list, k) > 0 ==> exists|i: int|
            0 <= i < k && block_of((#[trigger] list[i]).0) == Some(
                (crate::gguf::blocks_in(list, k) - 1) as nat,
            ),
    decreases k,
{
    if k > 0 {
        every_block_has_its_place(list, k - 1);
        let n = crate::gguf::blocks_in(list, k);
        if n > 0 && n == crate::gguf::blocks_in(list, k - 1) {
            let i = choose|i: int|
                0 <= i < k - 1 && block_of((#[trigger] list[i]).0) == Some((n - 1) as nat);
            assert(0 <= i < k && block_of(list[i].0) == Some((n - 1) as nat));
        } else if n > 0 {
            assert(block_of(list[k - 1].0) == Some((n - 1) as nat));
        }
    }
}

/// The number of a block stands between `blk.` and the next dot.
pub proof fn blocks_are_numbered_in_their_names(n: nat, rest: Seq<char>)
    requires
        n < 4096,
    ensures
        block_of("blk."@ + text::decimal(n) + "."@ + rest) == Some(n),
{
    reveal_strlit("blk.");
    reveal_strlit(".");
    let number = text::decimal(n);
    let name = "blk."@ + number + "."@ + rest;
    assert(name.subrange(0, 4) =~= "blk."@);
    let tail = name.skip(4);
    assert(tail =~= number.push('.') + rest);
    text::lemma_decimal_reads_back(n);
    text::pieces_of_two_texts(number, '.', rest);
    assert forall|i: int| 0 <= i < number.len() implies #[trigger] number[i] != '.' by {
        assert(text::is_digit(number[i]));
    }
    text::a_text_without_it_is_one_piece(number, '.');
    assert(text::split_on(tail, '.')[0] == number);
    assert(number[0] != '+') by {
        assert(text::is_digit(number[0]));
    }
}

proof fn lemma_together(split: Seq<Single>, n: int)
    ensures
        shares(split, n) == proportions_together(split, n),
    decreases n,
{
    if n > 0 {
        lemma_together(split, n - 1);
    }
}

proof fn lemma_device(layer: int, n_layers: int, split: Seq<Single>, k: int)
    requires
        0 <= k < split.len(),
    ensures
        ({
            let d = device_from(layer, n_layers, split, k);
            &&& k <= d < split.len()
            &&& d + 1 < split.len() ==> within(layer, n_layers, split, d + 1)
            &&& forall|j: int| k <= j < d ==> !#[trigger] within(layer, n_layers, split, j + 1)
        }),
    decreases split.len() - k,
{
    if k + 1 >= split.len() || within(layer, n_layers, split, k + 1) {
    } else {
        lemma_device(layer, n_layers, split, k + 1);
        let d = device_from(layer, n_layers, split, k);
        assert forall|j: int| k <= j < d implies !#[trigger] within(
            layer,
            n_layers,
            split,
            j + 1,
        ) by {
            if j == k {
                assert(!within(layer, n_layers, split, k + 1));
            }
        }
    }
}

/// A layer lives on the first device whose proportions, with those before it, reach the
/// middle of the layer: `layer + 1/2` of `n_layers` layers as a part of all proportions,
/// which make up at least one whole. The last device takes what is left.
pub proof fn a_layer_lives_where_its_middle_lies(
    layer: int,
    n_layers: int,
    split: Seq<Single>,
)
    requires
        0 <= layer,
        0 < n_layers,
        split.len() > 0,
        forall|i: int| 0 <= i < split.len() ==> !(#[trigger] split[i]).nan(),
    ensures
        ({
            let d = device_of(layer, n_layers, split);
            let sum = proportions_together(split, split.len() as int);
            let whole = if sum > 1_000_000 {
                sum
            } else {
                1_000_000
            };
            &&& 0 <= d < split.len()
            &&& d + 1 < split.len() ==> (2 * layer + 1) * whole <= 2 * n_layers
                * proportions_together(split, d + 1)
            &&& forall|j: int|
                0 < j <= d ==> (2 * layer + 1) * whole > 2 * n_layers
                    * #[trigger] proportions_together(split, j)
        }),
        device_of(layer, 0, split) == 0,
        device_of(layer, n_layers, Seq::empty()) == 0,
{
    let d = device_of(layer, n_layers, split);
    lemma_device(layer, n_layers, split, 0);
    lemma_together(split, split.len() as int);
    lemma_together(split, d + 1);
    assert(are_numbers(split, split.len() as int));
    assert forall|j: int| 0 < j <= d implies (2 * layer + 1) * share_total(split) > 2 * n_layers
        * #[trigger] proportions_together(split, j) by {
        lemma_together(split, j);
        let i = j - 1;
        assert(!within(layer, n_layers, split, i + 1));
        assert(are_numbers(split, j));
    }
}

/// The header of the file a server loads comes before the config of its directory.
pub proof fn the_header_comes_before_the_config(m: DetectedModel)
    ensures
        m.gguf is Some ==> m.topology() == m.gguf,
        m.gguf is None ==> m.topology() == m.hf,
{
}

/// A field of the inner config comes before the same field of the outer one, each on its
/// own.
pub proof fn the_inner_config_comes_first(inner: HfConfig, outer: HfConfig)
    ensures
        ({
            let c = inner.or_those_of(outer);
            &&& c.num_hidden_layers == if inner.num_hidden_layers is Some {
                inner.num_hidden_layers
            } else {
                outer.num_hidden_layers
            }
            &&& c.num_attention_heads == if inner.num_attention_heads is Some {
                inner.num_attention_heads
            } else {
                outer.num_attention_heads
            }
            &&& c.num_key_value_heads == if inner.num_key_value_heads is Some {
                inner.num_key_value_heads
            } else {
                outer.num_key_value_heads
            }
            &&& c.num_experts == if inner.num_experts is Some {
                inner.num_experts
            } else {
                outer.num_experts
            }
            &&& c.num_experts_per_tok == if inner.num_experts_per_tok is Some {
                inner.num_experts_per_tok
            } else {
                outer.num_experts_per_tok
            }
            &&& c.max_position_embeddings == if inner.max_position_embeddings is Some {
                inner.max_position_embeddings
            } else {
                outer.max_position_embeddings
            }
        }),
{
}

/// A config that tells no layers tells nothing. One that tells them tells its heads, its
/// experts and its context, and as many heads for keys and values as there are heads where
/// it does not say otherwise; each field on its own comes from the inner config where that
/// has it.
pub proof fn a_config_tells_its_topology(
    config: HfConfig,
    inner: HfConfig,
    r: Option<GgufInfo>,
    q: Option<GgufInfo>,
)
    requires
        crate::model_detect::config_tells(config, None, r),
        crate::model_detect::config_tells(config, Some(inner), q),
    ensures
        r is Some <==> config.num_hidden_layers is Some,
        q is Some <==> config.num_hidden_layers is Some || inner.num_hidden_layers is Some,
        r is Some ==> {
            let i = r->0;
            &&& i.n_layers == config.num_hidden_layers->0
            &&& config.num_attention_heads is Some ==> i.n_heads == config.num_attention_heads->0
            &&& config.num_attention_heads is None ==> i.n_heads == 0
            &&& config.num_key_value_heads is Some ==> i.n_kv_heads
                == config.num_key_value_heads->0
            &&& config.num_key_value_heads is None ==> i.n_kv_heads == i.n_heads
            &&& config.num_experts is Some ==> i.n_experts == config.num_experts->0
            &&& config.num_experts_per_tok is Some ==> i.n_experts_used
                == config.num_experts_per_tok->0
            &&& config.max_position_embeddings is Some ==> i.ctx_train
                == config.max_position_embeddings->0
        },
        q is Some && inner.num_hidden_layers is Some ==> q->0.n_layers
            == inner.num_hidden_layers->0,
        q is Some && inner.num_attention_heads is Some ==> q->0.n_heads
            == inner.num_attention_heads->0,
        q is Some && inner.num_key_value_heads is Some ==> q->0.n_kv_heads
            == inner.num_key_value_heads->0,
        q is Some && inner.num_experts is Some ==> q->0.n_experts == inner.num_experts->0,
        q is Some && inner.num_experts_per_tok is Some ==> q->0.n_experts_used
            == inner.num_experts_per_tok->0,
        q is Some && inner.max_position_embeddings is Some ==> q->0.ctx_train
            == inner.max_position_embeddings->0,
{
}

} // verus!
