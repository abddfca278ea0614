//! What holds of every model that is read: its numbers are those of the file, its shapes
//! follow from them, and its matrices have the rows of their tensors.

use crate::config::{config_error, first_error, keys, Config, ConfigKey, Metadata, HIDDEN};
use crate::gguf::{GgufView, Meta};
use crate::gguf_laws::{four_bytes, two_bytes};
use crate::load::{
    decimal, embedding_row, gate_up_of, half_words, has_experts, laid_out, layers_with_experts,
    name_of, part_data, qkv_of, qkv_rows_of, single_of, small_of, words, LoadError, Part,
    SmallView,
};
use crate::plan::{layer_error, layers_error, plan_error, Buf, Plan};
use crate::q4_0::{row_dots, row_dots_r};
use vstd::prelude::*;

verus! {

/// A natural number that fits the machine stands under a key.
pub open spec fn has_number(meta: Metadata, key: Seq<char>) -> bool {
    meta.contains_key(key) && match meta[key] {
        Meta::U8(_) | Meta::U16(_) | Meta::U32(_) => true,
        Meta::U64(v) => v <= usize::MAX,
        Meta::I8(v) => v >= 0,
        Meta::I16(v) => v >= 0,
        Meta::I32(v) => v >= 0,
        Meta::I64(v) => 0 <= v <= usize::MAX,
        _ => false,
    }
}

/// The natural number under a key.
pub open spec fn number(meta: Metadata, key: Seq<char>) -> int {
    natural(meta[key])
}

/// A value as a natural number.
pub open spec fn natural(v: Meta) -> int {
    match v {
        Meta::U8(v) => v as int,
        Meta::U16(v) => v as int,
        Meta::U32(v) => v as int,
        Meta::U64(v) => v as int,
        Meta::I8(v) => v as int,
        Meta::I16(v) => v as int,
        Meta::I32(v) => v as int,
        Meta::I64(v) => v as int,
        _ => -1,
    }
}

/// A single-precision number stands under a key.
pub open spec fn has_float(meta: Metadata, key: Seq<char>) -> bool {
    meta.contains_key(key) && meta[key] is F32
}

/// Integers of every type count as natural numbers where they are none below zero, and
/// nothing else does.
pub proof fn integers_are_natural_numbers(v: Meta)
    ensures
        v.as_u64() is Some <==> natural(v) >= 0,
        v.as_u64() is Some ==> v.as_u64()->0 == natural(v),
{
}

/// The hyperparameters are those that stand in the file under their names.
pub proof fn hyperparameters_are_those_of_the_file(meta: Metadata, cfg: Config)
    requires
        config_error(meta) is None,
        cfg.describes(meta),
    ensures
        cfg.n_layers == number(meta, "gemma4.block_count"@),
        cfg.n_heads == number(meta, "gemma4.attention.head_count"@),
        cfg.head_dim_swa == number(meta, "gemma4.attention.key_length_swa"@),
        cfg.head_dim_full == number(meta, "gemma4.attention.key_length"@),
        cfg.window == number(meta, "gemma4.attention.sliding_window"@),
        cfg.ffn == number(meta, "gemma4.feed_forward_length"@),
        cfg.n_experts == number(meta, "gemma4.expert_count"@),
        cfg.topk == number(meta, "gemma4.expert_used_count"@),
        cfg.moe_inter == number(meta, "gemma4.expert_feed_forward_length"@),
        meta["gemma4.rope.freq_base"@] == Meta::F32(cfg.rope_base_full),
        meta["gemma4.rope.freq_base_swa"@] == Meta::F32(cfg.rope_base_swa),
        meta["gemma4.attention.layer_norm_rms_epsilon"@] == Meta::F32(cfg.eps),
        meta["gemma4.final_logit_softcapping"@] == Meta::F32(cfg.softcap),
        cfg.vocab == meta["tokenizer.ggml.tokens"@]->Arr_0.len(),
        cfg.max_seq == 2048,
        ({
            let heads = meta["gemma4.attention.head_count_kv"@]->Arr_0;
            &&& cfg.kv_heads@.len() == heads.len()
            &&& forall|l: int| 0 <= l < heads.len() ==> cfg.kv_heads@[l] == natural(#[trigger] heads[l])
        }),
        ({
            let flags = meta["gemma4.attention.sliding_window_pattern"@]->Arr_0;
            &&& cfg.swa@.len() == flags.len()
            &&& forall|l: int|
                0 <= l < flags.len() ==> cfg.swa@[l] == (#[trigger] flags[l] == Meta::Bool(true))
        }),
{
    reveal_with_fuel(first_error, 16);
    assert(first_error(meta, 0) is None);
    let heads = meta["gemma4.attention.head_count_kv"@]->Arr_0;
    assert forall|l: int| 0 <= l < heads.len() implies cfg.kv_heads@[l] == natural(
        #[trigger] heads[l],
    ) by {
        assert(Some(cfg.kv_heads@[l] as u64) == heads[l].as_u64());
    }
}

/// Every number of a list is a natural one that fits the machine.
pub open spec fn all_natural(items: Seq<Meta>) -> bool {
    forall|i: int| 0 <= i < items.len() ==> 0 <= natural(#[trigger] items[i]) <= usize::MAX
}

proof fn lemma_elements(items: Seq<Meta>, key: ConfigKey)
    ensures
        crate::config::elements_error(items, key) is None <==> all_natural(items),
    decreases items.len(),
{
    if items.len() > 0 {
        let front = items.drop_last();
        lemma_elements(front, key);
        if all_natural(items) {
            assert(forall|i: int| 0 <= i < front.len() ==> #[trigger] front[i] == items[i]);
            assert(0 <= natural(items[items.len() - 1]) <= usize::MAX);
        }
        if all_natural(front) && 0 <= natural(items.last()) <= usize::MAX {
            assert forall|i: int| 0 <= i < items.len() implies 0 <= natural(#[trigger] items[i])
                <= usize::MAX by {
                if i < front.len() {
                    assert(front[i] == items[i]);
                }
            }
        }
    }
}

/// A file describes a model exactly where it has everything that is asked for.
pub proof fn whole_files_describe_models(meta: Metadata)
    ensures
        config_error(meta) is None <==> {
            &&& meta.contains_key("tokenizer.ggml.tokens"@)
            &&& meta["tokenizer.ggml.tokens"@] is Arr
            &&& has_number(meta, "gemma4.block_count"@)
            &&& has_number(meta, "gemma4.attention.head_count"@)
            &&& meta.contains_key("gemma4.attention.head_count_kv"@)
            &&& meta["gemma4.attention.head_count_kv"@] is Arr
            &&& all_natural(meta["gemma4.attention.head_count_kv"@]->Arr_0)
            &&& meta.contains_key("gemma4.attention.sliding_window_pattern"@)
            &&& meta["gemma4.attention.sliding_window_pattern"@] is Arr
            &&& has_number(meta, "gemma4.attention.key_length_swa"@)
            &&& has_number(meta, "gemma4.attention.key_length"@)
            &&& has_number(meta, "gemma4.attention.sliding_window"@)
            &&& has_float(meta, "gemma4.rope.freq_base"@)
            &&& has_float(meta, "gemma4.rope.freq_base_swa"@)
            &&& has_float(meta, "gemma4.attention.layer_norm_rms_epsilon"@)
            &&& has_number(meta, "gemma4.feed_forward_length"@)
            &&& has_number(meta, "gemma4.expert_count"@)
            &&& has_number(meta, "gemma4.expert_used_count"@)
            &&& has_number(meta, "gemma4.expert_feed_forward_length"@)
            &&& has_float(meta, "gemma4.final_logit_softcapping"@)
        },
{
    reveal_with_fuel(first_error, 16);
    if meta.contains_key("gemma4.attention.head_count_kv"@)
        && meta["gemma4.attention.head_count_kv"@] is Arr {
        lemma_elements(
            meta["gemma4.attention.head_count_kv"@]->Arr_0,
            ConfigKey::HeadCountKv,
        );
    }
}

proof fn lemma_no_layer_error(cfg: Config, l: int, n: int)
    requires
        layers_error(cfg, n) is None,
        0 <= l < n,
    ensures
        layer_error(cfg, l) is None,
    decreases n,
{
    if l < n - 1 {
        lemma_no_layer_error(cfg, l, n - 1);
    }
}

/// The shapes of a layer follow from the hyperparameters: its heads are of the one width
/// or the other, and its queries, keys and values are as many rows as heads times width.
/// Only a layer with a window has one.
pub proof fn shapes_follow_from_the_hyperparameters(
    cfg: Config,
    plan: Plan,
    max_batch: usize,
    cache_slots: usize,
    l: int,
)
    requires
        plan_error(cfg) is None,
        plan.describes(cfg, max_batch, cache_slots),
        0 <= l < cfg.n_layers,
    ensures
        ({
            let s = plan.layers@[l];
            let width = if cfg.swa@[l] {
                cfg.head_dim_swa as int
            } else {
                cfg.head_dim_full as int
            };
            &&& plan.layers@.len() == cfg.n_layers
            &&& s.head_dim == width
            &&& s.kv_heads == cfg.kv_heads@[l]
            &&& s.q_rows == cfg.n_heads * width
            &&& s.kv_dim == cfg.kv_heads@[l] * width
            &&& s.qkv_rows == s.q_rows + s.kv_dim + s.kv_dim
            &&& s.swa == cfg.swa@[l]
            &&& s.window == if cfg.swa@[l] {
                cfg.window
            } else {
                0
            }
            &&& s.group == cfg.n_heads as int / cfg.kv_heads@[l] as int
        }),
        plan.n_heads == cfg.n_heads,
        plan.ffn == cfg.ffn,
        plan.n_experts == cfg.n_experts,
        plan.topk == cfg.topk,
        plan.moe_inter == cfg.moe_inter,
        plan.vocab == cfg.vocab,
        plan.max_seq == cfg.max_seq,
        plan.max_batch == max_batch,
        plan.cache_slots == cache_slots,
{
    lemma_no_layer_error(cfg, l, cfg.n_layers as int);
    let width = cfg.head_width(l) as int;
    assert(0 <= cfg.n_heads * width && 0 <= cfg.kv_heads@[l] * width) by (nonlinear_arith)
        requires
            0 <= width,
    ;
    let (n, k) = (cfg.n_heads as int, cfg.kv_heads@[l] as int);
    vstd::arithmetic::div_mod::lemma_div_pos_is_pos(n, k);
    vstd::arithmetic::div_mod::lemma_div_is_ordered_by_denominator(n, 1, k);
}

/// A number is written in decimal digits, the highest first and without zeros in front.
pub proof fn numbers_are_written_in_digits(n: nat, d: nat)
    requires
        d < 10,
    ensures
        decimal(d) == seq![('0' as u32 + d) as char],
        n > 0 ==> decimal(10 * n + d) == decimal(n).push(('0' as u32 + d) as char),
{
    assert((10 * n + d) / 10 == n && (10 * n + d) % 10 == d);
    assert(d / 10 == 0 && d % 10 == d);
    assert(d == 0 || d == 1 || d == 2 || d == 3 || d == 4 || d == 5 || d == 6 || d == 7 || d == 8
        || d == 9);
}

/// The tensors of a layer have these names.
pub proof fn tensors_have_their_names(l: nat)
    ensures
        name_of(l, Part::AttnQ) == "blk."@ + decimal(l) + "."@ + "attn_q.weight"@,
        name_of(l, Part::AttnK) == "blk."@ + decimal(l) + "."@ + "attn_k.weight"@,
        name_of(l, Part::AttnV) == "blk."@ + decimal(l) + "."@ + "attn_v.weight"@,
        name_of(l, Part::AttnOutput) == "blk."@ + decimal(l) + "."@ + "attn_output.weight"@,
        name_of(l, Part::FfnGate) == "blk."@ + decimal(l) + "."@ + "ffn_gate.weight"@,
        name_of(l, Part::FfnUp) == "blk."@ + decimal(l) + "."@ + "ffn_up.weight"@,
        name_of(l, Part::FfnDown) == "blk."@ + decimal(l) + "."@ + "ffn_down.weight"@,
        name_of(l, Part::AttnNorm) == "blk."@ + decimal(l) + "."@ + "attn_norm.weight"@,
        name_of(l, Part::AttnQNorm) == "blk."@ + decimal(l) + "."@ + "attn_q_norm.weight"@,
        name_of(l, Part::AttnKNorm) == "blk."@ + decimal(l) + "."@ + "attn_k_norm.weight"@,
        name_of(l, Part::PostAttentionNorm) == "blk."@ + decimal(l) + "."@
            + "post_attention_norm.weight"@,
        name_of(l, Part::FfnNorm) == "blk."@ + decimal(l) + "."@ + "ffn_norm.weight"@,
        name_of(l, Part::PreFfwNorm2) == "blk."@ + decimal(l) + "."@ + "pre_ffw_norm_2.weight"@,
        name_of(l, Part::PostFfwNorm) == "blk."@ + decimal(l) + "."@ + "post_ffw_norm.weight"@,
        name_of(l, Part::PostFfwNorm1) == "blk."@ + decimal(l) + "."@ + "post_ffw_norm_1.weight"@,
        name_of(l, Part::PostFfwNorm2) == "blk."@ + decimal(l) + "."@ + "post_ffw_norm_2.weight"@,
        name_of(l, Part::RouterWeight) == "blk."@ + decimal(l) + "."@ + "ffn_gate_inp.weight"@,
        name_of(l, Part::RouterScale) == "blk."@ + decimal(l) + "."@ + "ffn_gate_inp.scale"@,
        name_of(l, Part::ExpertScale) == "blk."@ + decimal(l) + "."@ + "ffn_down_exps.scale"@,
        name_of(l, Part::LayerScale) == "blk."@ + decimal(l) + "."@ + "layer_output_scale.weight"@,
        name_of(l, Part::ExpertGateUp) == "blk."@ + decimal(l) + "."@ + "ffn_gate_up_exps.weight"@,
        name_of(l, Part::ExpertDown) == "blk."@ + decimal(l) + "."@ + "ffn_down_exps.weight"@,
        name_of(l, Part::ExpertGate) == "blk."@ + decimal(l) + "."@ + "ffn_gate_exps.weight"@,
        name_of(l, Part::ExpertUp) == "blk."@ + decimal(l) + "."@ + "ffn_up_exps.weight"@,
{
}

/// The data of a tensor of a layer is what the file has under its name.
pub proof fn parts_are_found_by_name(g: GgufView, l: nat, part: Part)
    ensures
        part_data(g, l, part) is Ok <==> g.data_range(name_of(l, part)) is Ok,
        part_data(g, l, part) is Ok ==> part_data(g, l, part)->Ok_0 == g.bytes.subrange(
            g.data_start + g.tensors[name_of(l, part)].offset,
            g.data_start + g.tensors[name_of(l, part)].offset + g.tensors[name_of(l, part)].nbytes,
        ),
{
}

/// A row of a q4_0 matrix of `k` columns.
pub open spec fn nth_row(src: Seq<u8>, k: int, r: int) -> Seq<u8> {
    src.subrange(r * (k / 32 * 18), r * (k / 32 * 18) + k / 32 * 18)
}

proof fn lemma_joined_rows(a: Seq<u8>, b: Seq<u8>, m: int, n: int, k: int, r: int)
    requires
        0 <= k,
        0 <= m,
        0 <= n,
        a.len() == m * (k / 32 * 18),
        b.len() == n * (k / 32 * 18),
        0 <= r < m + n,
    ensures
        nth_row(a + b, k, r) == if r < m {
            nth_row(a, k, r)
        } else {
            nth_row(b, k, r - m)
        },
{
    let w = k / 32 * 18;
    assert(0 <= r * w) by (nonlinear_arith)
        requires
            0 <= r,
            0 <= w,
    ;
    if r < m {
        assert(r * w + w <= m * w) by (nonlinear_arith)
            requires
                r + 1 <= m,
                0 <= w,
        ;
        assert(nth_row(a + b, k, r) =~= nth_row(a, k, r));
    } else {
        assert(r * w == m * w + (r - m) * w) by (nonlinear_arith);
        assert((r - m) * w + w <= n * w && 0 <= (r - m) * w) by (nonlinear_arith)
            requires
                0 <= r - m,
                r - m + 1 <= n,
                0 <= w,
        ;
        assert(nth_row(a + b, k, r) =~= nth_row(b, k, r - m));
    }
}

proof fn lemma_laid_out(src: Seq<u8>, rows: int, k: int, part: Part, r: int, qs: Seq<i8>)
    requires
        laid_out(src, rows, k, part) is Ok,
        0 < k,
        k % 32 == 0,
        0 <= r < rows,
        qs.len() == k,
    ensures
        ({
            let d = laid_out(src, rows, k, part)->Ok_0;
            let len = d.len() as int / rows;
            &&& d.len() == rows * len
            &&& row_dots_r(d.subrange(r * len, r * len + len), qs) == row_dots(
                nth_row(src, k, r),
                qs,
            )
        }),
{
    let len = crate::q4_0::q4r_bytes(k);
    crate::q4_0_laws::laid_out_rows_keep_dots(src, rows, k, r, qs);
    assert(rows * len == len * rows && rows * len >= 0) by (nonlinear_arith)
        requires
            0 < rows,
            0 <= len,
    ;
    vstd::arithmetic::div_mod::lemma_div_multiples_vanish(len, rows);
}

/// The first rows of a layer's joined matrix are those of its queries, then come those of
/// its keys, and then those of its values, which are those of its keys where it has no
/// others: a row times a vector is that row of that tensor times the vector.
pub proof fn queries_keys_and_values_are_joined(
    g: GgufView,
    plan: Plan,
    l: nat,
    r: int,
    qs: Seq<i8>,
)
    requires
        plan.wf(),
        l < plan.layers@.len(),
        qkv_of(g, plan, l) is Ok,
        qs.len() == HIDDEN,
        0 <= r < plan.layers@[l as int].qkv_rows,
    ensures
        ({
            let d = qkv_of(g, plan, l)->Ok_0;
            let s = plan.layers@[l as int];
            let len = d.len() as int / s.qkv_rows as int;
            let row = d.subrange(r * len, r * len + len);
            let q = part_data(g, l, Part::AttnQ);
            let k = part_data(g, l, Part::AttnK);
            let v = part_data(g, l, Part::AttnV);
            &&& q is Ok && k is Ok
            &&& d.len() == s.qkv_rows * len
            &&& row_dots_r(row, qs) == row_dots(
                if r < s.q_rows {
                    nth_row(q->Ok_0, HIDDEN as int, r)
                } else if r < s.q_rows + s.kv_dim {
                    nth_row(k->Ok_0, HIDDEN as int, r - s.q_rows)
                } else if v is Ok {
                    nth_row(v->Ok_0, HIDDEN as int, r - s.q_rows - s.kv_dim)
                } else {
                    nth_row(k->Ok_0, HIDDEN as int, r - s.q_rows - s.kv_dim)
                },
                qs,
            )
        }),
{
    let s = plan.layers@[l as int];
    let h = HIDDEN as int;
    let src = qkv_rows_of(g, plan, l)->Ok_0;
    let q = part_data(g, l, Part::AttnQ)->Ok_0;
    let k = part_data(g, l, Part::AttnK)->Ok_0;
    let v = match part_data(g, l, Part::AttnV) {
        Ok(v) => v,
        Err(_) => k,
    };
    assert(src == q + k + v);
    lemma_laid_out(src, s.qkv_rows as int, h, Part::AttnV, r, qs);
    let w = h / 32 * 18;
    let (a, b) = (s.q_rows as int, s.kv_dim as int);
    assert((a + 2 * b) * w == a * w + b * w + b * w) by (nonlinear_arith);
    assert((a + b) * w == a * w + b * w) by (nonlinear_arith);
    assert(v.len() == b * w);
    lemma_joined_rows(q + k, v, a + b, b, h, r);
    if r < a + b {
        lemma_joined_rows(q, k, a, b, h, r);
    }
}

/// The first rows of the joined matrix of a layer's shared branch are those of its gate,
/// and then come those of the up matrix.
pub proof fn gate_and_up_are_joined(g: GgufView, plan: Plan, l: nat, r: int, qs: Seq<i8>)
    requires
        plan.wf(),
        gate_up_of(g, plan, l) is Ok,
        qs.len() == HIDDEN,
        0 <= r < 2 * plan.ffn,
        part_data(g, l, Part::FfnGate) is Ok,
        part_data(g, l, Part::FfnGate)->Ok_0.len() == plan.ffn * (HIDDEN as int / 32 * 18),
    ensures
        ({
            let d = gate_up_of(g, plan, l)->Ok_0;
            let len = d.len() as int / (2 * plan.ffn);
            let row = d.subrange(r * len, r * len + len);
            let gate = part_data(g, l, Part::FfnGate);
            let up = part_data(g, l, Part::FfnUp);
            &&& up is Ok
            &&& d.len() == 2 * plan.ffn * len
            &&& row_dots_r(row, qs) == row_dots(
                if r < plan.ffn {
                    nth_row(gate->Ok_0, HIDDEN as int, r)
                } else {
                    nth_row(up->Ok_0, HIDDEN as int, r - plan.ffn)
                },
                qs,
            )
        }),
{
    let h = HIDDEN as int;
    let gate = part_data(g, l, Part::FfnGate)->Ok_0;
    let up = part_data(g, l, Part::FfnUp)->Ok_0;
    lemma_laid_out(gate + up, 2 * plan.ffn, h, Part::FfnUp, r, qs);
    let w = h / 32 * 18;
    let n = plan.ffn as int;
    assert(2 * n * w == n * w + n * w) by (nonlinear_arith);
    lemma_joined_rows(gate, up, n, n, h, r);
}

/// A matrix that is one tensor has that tensor's rows.
pub proof fn single_matrices_have_their_rows(
    g: GgufView,
    l: nat,
    part: Part,
    rows: int,
    k: int,
    r: int,
    qs: Seq<i8>,
)
    requires
        single_of(g, l, part, rows, k) is Ok,
        0 < k,
        k % 32 == 0,
        0 <= r < rows,
        qs.len() == k,
    ensures
        ({
            let d = single_of(g, l, part, rows, k)->Ok_0;
            let len = d.len() as int / rows;
            &&& part_data(g, l, part) is Ok
            &&& d.len() == rows * len
            &&& row_dots_r(d.subrange(r * len, r * len + len), qs) == row_dots(
                nth_row(part_data(g, l, part)->Ok_0, k, r),
                qs,
            )
        }),
{
    lemma_laid_out(part_data(g, l, part)->Ok_0, rows, k, part, r, qs);
}

/// Data is read as numbers one after the other, low byte first.
pub proof fn data_is_read_number_by_number(data: Seq<u8>, v: u32, w: u16)
    requires
        data.len() % 4 == 0,
    ensures
        words(data + four_bytes(v as int)) == words(data).push(v),
        half_words(data + two_bytes(w as int)) == half_words(data).push(w),
        words(seq![]) == Seq::<u32>::empty(),
        half_words(seq![]) == Seq::<u16>::empty(),
{
    reveal(four_bytes);
    reveal(two_bytes);
    let a = data + four_bytes(v as int);
    let b = data + two_bytes(w as int);
    let (m, n) = (data.len() as int / 4, data.len() as int / 2);
    assert(a.len() as int / 4 == m + 1 && b.len() as int / 2 == n + 1);
    assert(words(a) =~= words(data).push(v)) by {
        assert forall|i: int| 0 <= i < m implies words(a)[i] == words(data)[i] by {
            assert(a[4 * i] == data[4 * i] && a[4 * i + 1] == data[4 * i + 1]);
            assert(a[4 * i + 2] == data[4 * i + 2] && a[4 * i + 3] == data[4 * i + 3]);
        }
        assert(a[4 * m] == (v as int % 256) as u8);
    }
    assert(half_words(b) =~= half_words(data).push(w)) by {
        assert forall|i: int| 0 <= i < n implies half_words(b)[i] == half_words(data)[i] by {
            assert(b[2 * i] == data[2 * i] && b[2 * i + 1] == data[2 * i + 1]);
        }
    }
    assert(words(seq![]) =~= Seq::<u32>::empty());
    assert(half_words(seq![]) =~= Seq::<u16>::empty());
}

/// Small tensors are of single precision, of half precision, or in the q4_0 format.
pub proof fn small_tensors_are_read_by_type(data: Seq<u8>)
    ensures
        small_of(0, data) == Ok::<SmallView, LoadError>(SmallView::Single(words(data))),
        small_of(1, data) == Ok::<SmallView, LoadError>(SmallView::Half(half_words(data))),
        data.len() / 18 * 32 <= usize::MAX ==> small_of(2, data) == Ok::<SmallView, LoadError>(
            SmallView::Q4(
                crate::q4_0::scales_of(data, data.len() / 18 * 32),
                crate::q4_0::levels_of(data, data.len() / 18 * 32),
            ),
        ),
        forall|ty: u32| ty > 2 ==> #[trigger] small_of(ty, data) is Err,
{
}

/// The embedding of a token is that row of the table: 2816 weights in 11 blocks of 210
/// bytes.
pub proof fn embeddings_are_rows_of_the_table(table: Seq<u8>, token: int)
    ensures
        embedding_row(table, token) == table.subrange(2310 * token, 2310 * token + 2310),
{
    let len = HIDDEN as int / 256 * 210;
    assert(len == 2310);
    assert(token * len == 2310 * token);
}

/// The layers with routed experts are those with a tensor of them, in ascending order.
pub proof fn layers_with_experts_have_their_tensors(g: GgufView, n: nat, l: usize)
    requires
        n <= usize::MAX,
    ensures
        layers_with_experts(g, n).contains(l) <==> l < n && (g.tensors.contains_key(
            "blk."@ + decimal(l as nat) + "."@ + "ffn_gate_exps.weight"@,
        ) || g.tensors.contains_key(
            "blk."@ + decimal(l as nat) + "."@ + "ffn_gate_up_exps.weight"@,
        )),
        forall|i: int, j: int|
            0 <= i < j < layers_with_experts(g, n).len() ==> #[trigger] layers_with_experts(
                g,
                n,
            )[i] < #[trigger] layers_with_experts(g, n)[j],
        forall|i: int|
            0 <= i < layers_with_experts(g, n).len() ==> #[trigger] layers_with_experts(g, n)[i]
                < n,
    decreases n,
{
    if n > 0 {
        let m = (n - 1) as nat;
        layers_with_experts_have_their_tensors(g, m, l);
        let rest = layers_with_experts(g, m);
        let all = layers_with_experts(g, n);
        tensors_have_their_names(l as nat);
        if has_experts(g, m) {
            assert(all == rest.push(m as usize));
            assert(all[all.len() - 1] == m);
            if rest.contains(l) {
                let i = choose|i: int| 0 <= i < rest.len() && rest[i] == l;
                assert(all[i] == l);
            }
            if all.contains(l) && l != m {
                let i = choose|i: int| 0 <= i < all.len() && all[i] == l;
                assert(rest[i] == l);
            }
        }
    }
}

/// The first entry that is missing or of the wrong kind says why a file describes no
/// model, in this order.
pub proof fn first_bad_entry_decides(meta: Metadata)
    ensures
        !(meta.contains_key("tokenizer.ggml.tokens"@) && meta["tokenizer.ggml.tokens"@] is Arr)
            ==> config_error(meta) == Some(crate::config::ConfigError::NoTokens),
        keys() == seq![
            ConfigKey::BlockCount,
            ConfigKey::HeadCount,
            ConfigKey::HeadCountKv,
            ConfigKey::SlidingWindowPattern,
            ConfigKey::KeyLengthSwa,
            ConfigKey::KeyLength,
            ConfigKey::SlidingWindow,
            ConfigKey::FreqBase,
            ConfigKey::FreqBaseSwa,
            ConfigKey::RmsEpsilon,
            ConfigKey::FeedForwardLength,
            ConfigKey::ExpertCount,
            ConfigKey::ExpertUsedCount,
            ConfigKey::ExpertFeedForwardLength,
            ConfigKey::LogitSoftcapping,
        ],
        forall|i: int|
            0 <= i < keys().len() && crate::config::entry_error(meta, #[trigger] keys()[i]) is Some
                && (forall|j: int|
                0 <= j < i ==> crate::config::entry_error(meta, #[trigger] keys()[j]) is None)
                && meta.contains_key("tokenizer.ggml.tokens"@) && meta["tokenizer.ggml.tokens"@]
                is Arr ==> config_error(meta) == crate::config::entry_error(meta, keys()[i]),
{
    assert forall|i: int|
        0 <= i < keys().len() && crate::config::entry_error(meta, #[trigger] keys()[i]) is Some && (
        forall|j: int|
            0 <= j < i ==> crate::config::entry_error(meta, #[trigger] keys()[j]) is None)
            && meta.contains_key("tokenizer.ggml.tokens"@) && meta["tokenizer.ggml.tokens"@]
            is Arr implies config_error(meta) == crate::config::entry_error(meta, keys()[i]) by {
        lemma_first_error(meta, 0, i);
    }
}

proof fn lemma_first_error(meta: Metadata, a: int, i: int)
    requires
        0 <= a <= i < keys().len(),
        crate::config::entry_error(meta, keys()[i]) is Some,
        forall|j: int| 0 <= j < i ==> crate::config::entry_error(meta, #[trigger] keys()[j]) is None,
    ensures
        first_error(meta, a) == crate::config::entry_error(meta, keys()[i]),
    decreases i - a,
{
    if a < i {
        assert(crate::config::entry_error(meta, keys()[a]) is None);
        lemma_first_error(meta, a + 1, i);
    }
}

/// A step keeps buffers of these widths, and no others: quantized rows for the residual
/// stream, the shared branch and the queries of each layer, and rows for the residual
/// stream, gate and up of the shared branch, and queries, keys and values of each layer.
pub proof fn buffers_have_the_widths_of_the_layers(plan: Plan, w: usize)
    requires
        plan.wf(),
    ensures
        plan.widths().0.contains(w) <==> w == HIDDEN || w == plan.ffn || exists|l: int|
            0 <= l < plan.layers@.len() && (#[trigger] plan.layers@[l]).q_rows == w,
        plan.widths().1.contains(w) <==> w == HIDDEN || w == 2 * plan.ffn || exists|l: int|
            0 <= l < plan.layers@.len() && (#[trigger] plan.layers@[l]).qkv_rows == w,
{
    let (quants, rows) = plan.widths();
    assert(quants[0] == HIDDEN && quants[1] == plan.ffn);
    assert(rows[0] == HIDDEN && rows[1] == 2 * plan.ffn);
    if quants.contains(w) && w != HIDDEN && w != plan.ffn {
        let i = choose|i: int| 0 <= i < quants.len() && quants[i] == w;
        assert(plan.layers@[i - 2].q_rows == w);
    }
    if rows.contains(w) && w != HIDDEN && w != 2 * plan.ffn {
        let i = choose|i: int| 0 <= i < rows.len() && rows[i] == w;
        assert(plan.layers@[i - 2].qkv_rows == w);
    }
    assert forall|l: int| 0 <= l < plan.layers@.len() implies quants.contains(
        (#[trigger] plan.layers@[l]).q_rows,
    ) && rows.contains(plan.layers@[l].qkv_rows) by {
        assert(quants[l + 2] == plan.layers@[l].q_rows);
        assert(rows[l + 2] == plan.layers@[l].qkv_rows);
    }
}

/// The buffers of a step have room for the greatest batch: a row for each sequence or for
/// each pair, and for the keys and values of a layer one for each position.
pub proof fn buffers_hold_the_greatest_batch(plan: Plan, buf: Buf)
    ensures
        ({
            let n = plan.max_batch as int;
            let pairs = plan.max_batch * plan.topk;
            match buf {
                Buf::Residual
                | Buf::Normed
                | Buf::SharedIn
                | Buf::RoutedIn
                | Buf::RoutedOut => plan.size(buf) == n * 2816,
                Buf::Attended | Buf::Queries => plan.size(buf) == n * plan.n_heads
                    * plan.head_dim_full,
                Buf::Rows(w) => plan.size(buf) == n * w,
                Buf::Quants(w) => plan.size(buf) == n * (w as int / 32) * 40,
                Buf::SharedQ8 | Buf::RoutedQ8 => plan.size(buf) == n * 88 * 40,
                Buf::SharedActs => plan.size(buf) == n * plan.ffn,
                Buf::Logits => plan.size(buf) == n * plan.vocab,
                Buf::RouterLogits => plan.size(buf) == n * plan.n_experts,
                Buf::PairGateUp => plan.size(buf) == pairs * (2 * plan.moe_inter),
                Buf::PairActs => plan.size(buf) == pairs * plan.moe_inter,
                Buf::PairActsQ8 => plan.size(buf) == pairs * (plan.moe_inter as int / 32) * 40,
                Buf::PairDown => plan.size(buf) == pairs * 2816,
                Buf::PairWeights
                | Buf::PairSeqs
                | Buf::PairIndex
                | Buf::PairBases
                | Buf::Identity
                | Buf::Zeros
                | Buf::Choices
                | Buf::PromoteFrom
                | Buf::PromoteTo => plan.size(buf) == pairs,
                Buf::Positions | Buf::Slots | Buf::Temps | Buf::Seeds | Buf::Tokens => plan.size(
                    buf,
                ) == n,
                Buf::Keys(l) | Buf::Values(l) => plan.size(buf) == n * plan.max_seq
                    * plan.layers@[l as int].kv_dim,
            }
        }),
{
}

/// An expert takes the bytes of its gate-and-up matrix, which is twice as many rows as it
/// is wide, and behind them those of its down matrix, which leads back.
pub proof fn experts_have_two_matrices(plan: Plan)
    requires
        plan.wf(),
    ensures
        plan.gate_up_bytes == 2 * plan.moe_inter * crate::q4_0::q4r_bytes(2816),
        plan.expert_bytes == plan.gate_up_bytes + 2816 * crate::q4_0::q4r_bytes(
            plan.moe_inter as int,
        ),
{
}

/// The width of a layer's experts and the number of their gate rows are those of the
/// tensor of both gate and up rows, of which half are gate rows, or else of the tensor of
/// gate rows.
pub proof fn expert_widths_are_those_of_the_tensors(g: GgufView, l: nat)
    ensures
        ({
            let both = "blk."@ + decimal(l) + "."@ + "ffn_gate_up_exps.weight"@;
            let one = "blk."@ + decimal(l) + "."@ + "ffn_gate_exps.weight"@;
            let r = crate::load::geometry_of(g, l);
            &&& g.tensors.contains_key(both) && g.tensors[both].dims.len() >= 2 ==> r == Some(
                (g.tensors[both].dims[0], (g.tensors[both].dims[1] / 2) as u64),
            )
            &&& !g.tensors.contains_key(both) && g.tensors.contains_key(one)
                && g.tensors[one].dims.len() >= 2 ==> r == Some(
                (g.tensors[one].dims[0], g.tensors[one].dims[1]),
            )
            &&& !g.tensors.contains_key(both) && !g.tensors.contains_key(one) ==> r is None
        }),
{
}

/// The table of embeddings is the data of one tensor, which has to be in the q6_k format.
pub proof fn embeddings_are_one_tensor(g: GgufView)
    ensures
        ({
            let name = "token_embd.weight"@;
            let r = crate::load::embedding_of(g);
            &&& r is Ok <==> g.tensors.contains_key(name) && g.tensors[name].ggml_type == 14
                && g.data_range(name) is Ok
            &&& r is Ok ==> r->Ok_0 == g.bytes.subrange(
                g.data_start + g.tensors[name].offset,
                g.data_start + g.tensors[name].offset + g.tensors[name].nbytes,
            )
        }),
{
}

/// The experts of a layer are loaded exactly where both their tensors are long enough for
/// all of them.
pub proof fn experts_are_loaded_where_all_are_there(g: GgufView, plan: Plan, l: nat)
    requires
        plan.wf(),
    ensures
        ({
            let a = part_data(g, l, Part::ExpertGateUp);
            let b = part_data(g, l, Part::ExpertDown);
            crate::load::experts_error(g, plan, l) is None <==> a is Ok && b is Ok
                && a->Ok_0.len() >= plan.n_experts * (2 * plan.moe_inter * 1584)
                && b->Ok_0.len() >= plan.n_experts * (2816 * (plan.moe_inter as int / 32 * 18))
        }),
{
    assert(HIDDEN as int / 32 * 18 == 1584);
    let s = plan.experts();
    assert(crate::q4_0::matrix_bytes(s.rows_in as int, s.k_in as int) == 2 * plan.moe_inter * 1584);
    assert(crate::q4_0::matrix_bytes(s.rows_out as int, s.k_out as int) == 2816 * (
    plan.moe_inter as int / 32 * 18));
}

/// A model can be laid out exactly where every layer has its flags and heads, its rows are
/// of whole blocks, and its sizes fit.
pub proof fn models_with_whole_blocks_are_laid_out(cfg: Config)
    ensures
        plan_error(cfg) is None <==> {
            &&& forall|l: int| 0 <= l < cfg.n_layers ==> #[trigger] layer_is_good(cfg, l)
            &&& cfg.ffn > 0 && cfg.ffn % 32 == 0 && 2 * cfg.ffn <= usize::MAX
            &&& cfg.moe_inter > 0 && cfg.moe_inter % 32 == 0 && 2 * cfg.moe_inter <= usize::MAX
            &&& 2 * cfg.moe_inter * 1584 <= usize::MAX
            &&& 2816 * (cfg.moe_inter as int / 32 * 18) <= usize::MAX
            &&& 2 * cfg.moe_inter * crate::q4_0::q4r_bytes(2816) + 2816 * crate::q4_0::q4r_bytes(
                cfg.moe_inter as int,
            ) <= usize::MAX
        },
{
    lemma_layers_good(cfg, cfg.n_layers as int);
    assert(HIDDEN as int / 32 * 18 == 1584);
}

/// A layer has a flag and heads, and its queries are rows of whole blocks.
pub open spec fn layer_is_good(cfg: Config, l: int) -> bool {
    let width = if cfg.swa@[l] {
        cfg.head_dim_swa as int
    } else {
        cfg.head_dim_full as int
    };
    &&& l < cfg.kv_heads@.len()
    &&& l < cfg.swa@.len()
    &&& cfg.kv_heads@[l] > 0
    &&& cfg.n_heads * width + 2 * (cfg.kv_heads@[l] * width) <= usize::MAX
    &&& cfg.n_heads * width > 0
    &&& cfg.n_heads * width % 32 == 0
}

proof fn lemma_layers_good(cfg: Config, n: int)
    ensures
        layers_error(cfg, n) is None <==> forall|l: int|
            0 <= l < n ==> #[trigger] layer_is_good(cfg, l),
    decreases n,
{
    if n > 0 {
        lemma_layers_good(cfg, n - 1);
        let width = cfg.head_width(n - 1) as int;
        assert(0 <= cfg.n_heads * width && 0 <= cfg.kv_heads@[n - 1] * width) by (nonlinear_arith)
            requires
                0 <= width,
        ;
        assert(layer_error(cfg, n - 1) is None <==> layer_is_good(cfg, n - 1));
        if forall|l: int| 0 <= l < n ==> #[trigger] layer_is_good(cfg, l) {
            assert(layer_is_good(cfg, n - 1));
        }
        if layers_error(cfg, n) is None {
            assert forall|l: int| 0 <= l < n implies #[trigger] layer_is_good(cfg, l) by {
                if l < n - 1 {
                    assert(layer_is_good(cfg, l));
                }
            }
        }
    }
}

/// A matrix can be laid out exactly where its data has the size of its rows and the
/// outcome fits.
pub proof fn matrices_of_the_right_size_are_laid_out(
    src: Seq<u8>,
    rows: int,
    k: int,
    part: Part,
)
    ensures
        laid_out(src, rows, k, part) is Ok <==> src.len() == rows * (k / 32 * 18) && rows
            * crate::q4_0::q4r_bytes(k) <= usize::MAX,
        src.len() != rows * (k / 32 * 18) ==> laid_out(src, rows, k, part) == Err::<
            Seq<u8>,
            LoadError,
        >(LoadError::WrongShape(part)),
{
}

/// The queries, keys and values of a layer can be joined exactly where the tensors of the
/// first two are there and all have the size of their rows.
pub proof fn tensors_of_the_right_size_are_joined(g: GgufView, plan: Plan, l: nat)
    requires
        plan.wf(),
        l < plan.layers@.len(),
    ensures
        ({
            let s = plan.layers@[l as int];
            let q = part_data(g, l, Part::AttnQ);
            let k = part_data(g, l, Part::AttnK);
            let v = part_data(g, l, Part::AttnV);
            qkv_of(g, plan, l) is Ok <==> {
                &&& q is Ok && q->Ok_0.len() == s.q_rows * 1584
                &&& k is Ok && k->Ok_0.len() == s.kv_dim * 1584
                &&& v is Ok ==> v->Ok_0.len() == s.kv_dim * 1584
                &&& s.qkv_rows * crate::q4_0::q4r_bytes(2816) <= usize::MAX
            }
        }),
{
    assert(HIDDEN as int / 32 * 18 == 1584);
    let s = plan.layers@[l as int];
    let (a, b) = (s.q_rows as int, s.kv_dim as int);
    assert((a + 2 * b) * 1584 == a * 1584 + b * 1584 + b * 1584);
}

} // verus!
