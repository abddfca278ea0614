//! What holds of every decode step: operations stay inside their buffers, launches
//! are accepted, nothing is read before it is written, and experts are in place
//! before they are used.

use crate::config::HIDDEN;
use crate::plan::{Buf, LayerShape, Plan};
use crate::schedule::{Matrix, Mode, Norm, Op, Phase, Section};
use vstd::prelude::*;

verus! {

/// How far into rows of the given width an operation reaches that touches, of each
/// of `n` rows, `len` elements from an offset on.
pub open spec fn reach(n: int, width: int, offset: int, len: int) -> int {
    if n <= 0 {
        0
    } else {
        (n - 1) * width + offset + len
    }
}

/// Bytes of `n` quantized rows of `k` activations.
pub open spec fn q8_rows(n: int, k: int) -> int {
    n * (k / 32) * 40
}

/// The buffers that an operation touches, each with the number of elements up to
/// which it does.
pub open spec fn touches(plan: Plan, op: Op) -> Seq<(Buf, int)> {
    let h = HIDDEN as int;
    match op {
        Op::RmsNorm { src, norm, dst, n } => seq![(src, n * h), (dst, n * h)],
        Op::Quantize { src, dst, k, n } => seq![
            (src, (n * k) as int),
            (dst, q8_rows(n as int, k as int)),
        ],
        Op::Gemv { matrix, x, y, n_rows, k, n } => seq![
            (x, q8_rows(n as int, k as int)),
            (y, (n * n_rows) as int),
            (Buf::Zeros, n as int),
            (Buf::Identity, n as int),
        ],
        Op::NormHeads { layer, section, offset, heads, n } => {
            let s = plan.layers@[layer as int];
            seq![
                (
                    Buf::Rows(s.qkv_rows),
                    reach(n as int, s.qkv_rows as int, offset as int, heads * s.head_dim),
                ),
            ]
        },
        Op::RopeHeads { layer, offset, heads, n } => {
            let s = plan.layers@[layer as int];
            seq![
                (
                    Buf::Rows(s.qkv_rows),
                    reach(n as int, s.qkv_rows as int, offset as int, heads * s.head_dim),
                ),
                (Buf::Positions, n as int),
            ]
        },
        Op::AppendKv { layer, pool, offset, n } => {
            let s = plan.layers@[layer as int];
            seq![
                (
                    Buf::Rows(s.qkv_rows),
                    reach(n as int, s.qkv_rows as int, offset as int, s.kv_dim as int),
                ),
                (pool, plan.max_batch * plan.max_seq * s.kv_dim),
                (Buf::Slots, n as int),
                (Buf::Positions, n as int),
            ]
        },
        Op::GatherQueries { layer, n } => {
            let s = plan.layers@[layer as int];
            seq![
                (
                    Buf::Rows(s.qkv_rows),
                    reach(n as int, s.qkv_rows as int, 0, s.q_rows as int),
                ),
                (Buf::Queries, (n * s.q_rows) as int),
            ]
        },
        Op::Attend { layer, span, n } => {
            let s = plan.layers@[layer as int];
            seq![
                (Buf::Keys(layer), plan.max_batch * plan.max_seq * s.kv_dim),
                (Buf::Values(layer), plan.max_batch * plan.max_seq * s.kv_dim),
                (Buf::Queries, (n * s.q_rows) as int),
                (Buf::Attended, (n * s.q_rows) as int),
                (Buf::Slots, n as int),
                (Buf::Positions, n as int),
            ]
        },
        Op::Add { dst, src, n } => seq![(dst, n * h), (src, n * h)],
        Op::Gelu { src, dst, inter, n } => seq![
            (src, n * (2 * inter)),
            (dst, (n * inter) as int),
        ],
        Op::RouterGemv { layer, n } => seq![
            (Buf::Normed, n * h),
            (Buf::RouterLogits, (n * plan.n_experts) as int),
        ],
        Op::TopK { layer, n } => seq![
            (Buf::RouterLogits, (n * plan.n_experts) as int),
            (Buf::Choices, (n * plan.topk) as int),
            (Buf::PairWeights, (n * plan.topk) as int),
        ],
        Op::Admit { layer, entries } => seq![
            (Buf::Choices, entries as int),
            (Buf::PairBases, entries as int),
            (Buf::PromoteFrom, entries as int),
            (Buf::PromoteTo, entries as int),
        ],
        Op::Promote { entries } => seq![
            (Buf::PromoteFrom, entries as int),
            (Buf::PromoteTo, entries as int),
        ],
        Op::ClearRouted { n } => seq![(Buf::RoutedOut, n * h)],
        Op::GemvPairs { offset, index, x, x_rows, y, n_rows, k, n_pairs } => seq![
            (Buf::PairBases, n_pairs as int),
            (index, n_pairs as int),
            (x, q8_rows(x_rows as int, k as int)),
            (y, (n_pairs * n_rows) as int),
        ],
        Op::ReducePairs { n_pairs, n } => seq![
            (Buf::PairDown, n_pairs * h),
            (Buf::PairWeights, n_pairs as int),
            (Buf::PairSeqs, n_pairs as int),
            (Buf::RoutedOut, n * h),
        ],
        Op::Combine { layer, n } => seq![
            (Buf::Residual, n * h),
            (Buf::Rows(HIDDEN), n * h),
            (Buf::RoutedOut, n * h),
        ],
        Op::Sample { n } => seq![
            (Buf::Logits, (n * plan.vocab) as int),
            (Buf::Temps, n as int),
            (Buf::Seeds, n as int),
            (Buf::Tokens, n as int),
        ],
        Op::DownloadRouter { n } => seq![
            (Buf::RouterLogits, (n * plan.n_experts) as int),
            (Buf::RoutedIn, n * h),
        ],
        Op::UploadPairs { n_pairs } => seq![
            (Buf::PairBases, n_pairs as int),
            (Buf::PairIndex, n_pairs as int),
            (Buf::PairWeights, n_pairs as int),
            (Buf::PairSeqs, n_pairs as int),
        ],
        Op::HostExperts { n } => seq![(Buf::SharedIn, n * h)],
        Op::DownloadLogits { n } => seq![(Buf::Logits, (n * plan.vocab) as int)],
        Op::StartLap | Op::Lap(_) | Op::WaitPending | Op::Fork | Op::Join | Op::FetchExperts => seq![],
    }
}

/// The operation stays inside its buffers.
#[verifier::opaque]
pub open spec fn inside(plan: Plan, op: Op) -> bool {
    forall|j: int|
        0 <= j < touches(plan, op).len() ==> (#[trigger] touches(plan, op)[j]).1 <= plan.size(
            touches(plan, op)[j].0,
        )
}

/// All operations stay inside their buffers.
pub open spec fn all_inside(plan: Plan, ops: Seq<Op>) -> bool {
    forall|i: int| 0 <= i < ops.len() ==> inside(plan, #[trigger] ops[i])
}

/// No layer's heads are wider than those of the layers without a window, for which
/// the buffers of the queries are made, and each sequence is routed to an expert.
pub open spec fn roomy(plan: Plan) -> bool {
    &&& forall|l: int|
        0 <= l < plan.layers@.len() ==> (#[trigger] plan.layers@[l]).head_dim <= plan.head_dim_full
    &&& plan.topk >= 1
}

proof fn lemma_less(a: int, b: int, w: int)
    requires
        0 <= a <= b,
        0 <= w,
    ensures
        0 <= a * w <= b * w,
{
    assert(0 <= a * w <= b * w) by (nonlinear_arith)
        requires
            0 <= a <= b,
            0 <= w,
    ;
}

proof fn lemma_q8_less(a: int, b: int, k: int)
    requires
        0 <= a <= b,
        0 <= k,
    ensures
        0 <= q8_rows(a, k) <= q8_rows(b, k),
{
    lemma_less(a, b, k / 32);
}

proof fn lemma_reach(n: int, m: int, width: int, offset: int, len: int)
    requires
        0 <= n <= m,
        0 <= offset,
        0 <= len,
        offset + len <= width,
    ensures
        reach(n, width, offset, len) <= m * width,
{
    lemma_less(n, m, width);
    if n > 0 {
        assert((n - 1) * width + width == n * width) by (nonlinear_arith);
    }
}

proof fn lemma_pairs(n: int, m: int, topk: int)
    requires
        0 <= n <= m,
        1 <= topk,
    ensures
        n * topk <= m * topk,
        n <= m * topk,
{
    lemma_less(n, m, topk);
    assert(n <= n * topk) by (nonlinear_arith)
        requires
            0 <= n,
            1 <= topk,
    ;
}

proof fn lemma_queries(plan: Plan, l: int, n: int)
    requires
        plan.wf(),
        roomy(plan),
        0 <= l < plan.layers@.len(),
        0 <= n <= plan.max_batch,
    ensures
        n * plan.layers@[l].q_rows <= plan.size(Buf::Queries),
        n * plan.layers@[l].q_rows <= plan.size(Buf::Attended),
{
    let s = plan.layers@[l];
    let m = plan.max_batch as int;
    let a = plan.n_heads as int;
    let d = plan.head_dim_full as int;
    assert(a * s.head_dim <= a * d) by (nonlinear_arith)
        requires
            0 <= a,
            s.head_dim <= d,
    ;
    lemma_less(n, m, s.q_rows as int);
    assert(m * s.q_rows <= m * (a * d)) by (nonlinear_arith)
        requires
            0 <= m,
            s.q_rows <= a * d,
    ;
    assert(m * (a * d) == m * a * d) by (nonlinear_arith);
}

proof fn lemma_attention_ops_inside(plan: Plan, l: int, n: usize, span: usize)
    requires
        plan.wf(),
        roomy(plan),
        0 <= l < plan.layers@.len(),
        n <= plan.max_batch,
    ensures
        ({
            let s: LayerShape = plan.layers@[l];
            let layer = l as usize;
            let value_at = (s.q_rows + s.kv_dim) as usize;
            let heads = plan.n_heads;
            let kv_heads = s.kv_heads;
            &&& inside(plan, Op::NormHeads { layer, section: Section::Query, offset: 0, heads, n })
            &&& inside(
                plan,
                Op::NormHeads { layer, section: Section::Key, offset: s.q_rows, heads: kv_heads, n },
            )
            &&& inside(
                plan,
                Op::NormHeads {
                    layer,
                    section: Section::Value,
                    offset: value_at,
                    heads: kv_heads,
                    n,
                },
            )
            &&& inside(plan, Op::RopeHeads { layer, offset: 0, heads, n })
            &&& inside(plan, Op::RopeHeads { layer, offset: s.q_rows, heads: kv_heads, n })
            &&& inside(
                plan,
                Op::AppendKv { layer, pool: Buf::Keys(layer), offset: s.q_rows, n },
            )
            &&& inside(
                plan,
                Op::AppendKv { layer, pool: Buf::Values(layer), offset: value_at, n },
            )
            &&& inside(plan, Op::GatherQueries { layer, n })
            &&& inside(plan, Op::Attend { layer, span, n })
        }),
{
    reveal(inside);
    let s: LayerShape = plan.layers@[l];
    let m = plan.max_batch as int;
    let k = n as int;
    lemma_queries(plan, l, k);
    lemma_reach(k, m, s.qkv_rows as int, 0, s.q_rows as int);
    lemma_reach(k, m, s.qkv_rows as int, s.q_rows as int, s.kv_dim as int);
    lemma_reach(k, m, s.qkv_rows as int, s.q_rows + s.kv_dim, s.kv_dim as int);
}

proof fn lemma_attention_inside(plan: Plan, l: int, n: usize, span: usize, mode: Mode)
    requires
        plan.wf(),
        roomy(plan),
        0 <= l < plan.layers@.len(),
        n <= plan.max_batch,
    ensures
        all_inside(plan, plan.attention(l, n, span, mode)),
{
    let s: LayerShape = plan.layers@[l];
    let layer = l as usize;
    lemma_attention_ops_inside(plan, l, n, span);
    lemma_rows_inside(plan, n);
    lemma_gemv_inside(plan, n, s.qkv_rows, HIDDEN, Matrix::Qkv(layer), Buf::Quants(HIDDEN));
    lemma_norm_inside(plan, n, Buf::Residual, Norm::Attn(layer), Buf::Normed);
    lemma_lap_inside(plan, Phase::Attn);
}

/// Operations on rows of the residual stream's width.
proof fn lemma_norm_inside(plan: Plan, n: usize, src: Buf, norm: Norm, dst: Buf)
    requires
        n <= plan.max_batch,
        plan.size(src) == plan.max_batch * HIDDEN,
        plan.size(dst) == plan.max_batch * HIDDEN,
    ensures
        inside(plan, Op::RmsNorm { src, norm, dst, n }),
        inside(plan, Op::Add { dst, src, n }),
{
    reveal(inside);
    lemma_less(n as int, plan.max_batch as int, HIDDEN as int);
}

proof fn lemma_rows_inside(plan: Plan, n: usize)
    requires
        n <= plan.max_batch,
    ensures
        inside(
            plan,
            Op::Quantize { src: Buf::Normed, dst: Buf::Quants(HIDDEN), k: HIDDEN, n },
        ),
        inside(plan, Op::Quantize { src: Buf::Normed, dst: Buf::SharedQ8, k: HIDDEN, n }),
        inside(plan, Op::Quantize { src: Buf::SharedIn, dst: Buf::SharedQ8, k: HIDDEN, n }),
        inside(plan, Op::Quantize { src: Buf::RoutedIn, dst: Buf::RoutedQ8, k: HIDDEN, n }),
        inside(plan, Op::ClearRouted { n }),
        inside(plan, Op::HostExperts { n }),
        forall|layer: usize| #[trigger] inside(plan, Op::Combine { layer, n }),
{
    reveal(inside);
    lemma_less(n as int, plan.max_batch as int, HIDDEN as int);
    lemma_q8_less(n as int, plan.max_batch as int, HIDDEN as int);
}

proof fn lemma_gemv_inside(
    plan: Plan,
    n: usize,
    n_rows: usize,
    k: usize,
    matrix: Matrix,
    x: Buf,
)
    requires
        roomy(plan),
        n <= plan.max_batch,
        plan.size(x) == q8_rows(plan.max_batch as int, k as int),
    ensures
        inside(plan, Op::Gemv { matrix, x, y: Buf::Rows(n_rows), n_rows, k, n }),
        n_rows == plan.vocab ==> inside(plan, Op::Gemv { matrix, x, y: Buf::Logits, n_rows, k, n }),
{
    reveal(inside);
    lemma_less(n as int, plan.max_batch as int, n_rows as int);
    lemma_q8_less(n as int, plan.max_batch as int, k as int);
    lemma_pairs(n as int, plan.max_batch as int, plan.topk as int);
}

proof fn lemma_lap_inside(plan: Plan, phase: Phase)
    ensures
        inside(plan, Op::StartLap),
        inside(plan, Op::Lap(phase)),
        inside(plan, Op::WaitPending),
        inside(plan, Op::Fork),
        inside(plan, Op::Join),
        inside(plan, Op::FetchExperts),
{
    reveal(inside);
}

proof fn lemma_projection_inside(plan: Plan, l: int, n: usize, mode: Mode)
    requires
        plan.wf(),
        roomy(plan),
        0 <= l < plan.layers@.len(),
        n <= plan.max_batch,
    ensures
        all_inside(plan, plan.projection(l, n, mode)),
{
    let s: LayerShape = plan.layers@[l];
    let layer = l as usize;
    let quantize = Op::Quantize { src: Buf::Attended, dst: Buf::Quants(s.q_rows), k: s.q_rows, n };
    assert(inside(plan, quantize)) by {
        reveal(inside);
        lemma_queries(plan, l, n as int);
        lemma_q8_less(n as int, plan.max_batch as int, s.q_rows as int);
    }
    lemma_gemv_inside(plan, n, HIDDEN, s.q_rows, Matrix::Out(layer), Buf::Quants(s.q_rows));
    lemma_norm_inside(plan, n, Buf::Rows(HIDDEN), Norm::PostAttn(layer), Buf::Normed);
    lemma_norm_inside(plan, n, Buf::Normed, Norm::Plain, Buf::Residual);
    lemma_lap_inside(plan, Phase::OutGemv);
}

proof fn lemma_shared_inside(plan: Plan, l: int, n: usize, mode: Mode)
    requires
        plan.wf(),
        roomy(plan),
        0 <= l < plan.layers@.len(),
        n <= plan.max_batch,
    ensures
        all_inside(plan, plan.shared_branch(l, n, mode)),
{
    let layer = l as usize;
    let width = (2 * plan.ffn) as usize;
    let m = plan.max_batch as int;
    lemma_rows_inside(plan, n);
    lemma_norm_inside(plan, n, Buf::Residual, Norm::Ffn(layer), Buf::SharedIn);
    lemma_norm_inside(plan, n, Buf::Residual, Norm::PreRouted(layer), Buf::RoutedIn);
    lemma_norm_inside(plan, n, Buf::Residual, Norm::Plain, Buf::Normed);
    lemma_gemv_inside(plan, n, width, HIDDEN, Matrix::GateUp(layer), Buf::SharedQ8);
    lemma_gemv_inside(plan, n, HIDDEN, plan.ffn, Matrix::Down(layer), Buf::Quants(plan.ffn));
    lemma_lap_inside(plan, Phase::SharedMlp);
    let gelu = Op::Gelu { src: Buf::Rows(width), dst: Buf::SharedActs, inter: plan.ffn, n };
    let quantize = Op::Quantize {
        src: Buf::SharedActs,
        dst: Buf::Quants(plan.ffn),
        k: plan.ffn,
        n,
    };
    let router = Op::RouterGemv { layer, n };
    assert(inside(plan, gelu) && inside(plan, quantize) && inside(plan, router)) by {
        reveal(inside);
        lemma_less(n as int, m, HIDDEN as int);
        lemma_less(n as int, m, plan.ffn as int);
        lemma_less(n as int, m, 2 * plan.ffn);
        lemma_less(n as int, m, plan.n_experts as int);
        lemma_q8_less(n as int, m, plan.ffn as int);
    }
}

proof fn lemma_pair_stage_inside(plan: Plan, n_pairs: usize, n: usize)
    requires
        plan.wf(),
        roomy(plan),
        n <= plan.max_batch,
        n_pairs <= plan.max_batch * plan.topk,
    ensures
        all_inside(plan, plan.pair_stage(n_pairs, n)),
{
    reveal(inside);
    let m = plan.max_batch as int;
    let k = n as int;
    let p = n_pairs as int;
    let q = m * plan.topk;
    lemma_less(k, m, HIDDEN as int);
    lemma_q8_less(k, m, HIDDEN as int);
    lemma_less(p, q, 2 * plan.moe_inter);
    lemma_less(p, q, plan.moe_inter as int);
    lemma_less(p, q, HIDDEN as int);
    lemma_q8_less(p, q, plan.moe_inter as int);
}

proof fn lemma_device_inside(plan: Plan, l: int, n: usize, mode: Mode)
    requires
        plan.wf(),
        roomy(plan),
        plan.step_fits(n),
        0 <= l < plan.layers@.len(),
        n <= plan.max_batch,
    ensures
        all_inside(plan, plan.device_experts(l, n, mode)),
{
    let layer = l as usize;
    let entries = (n * plan.topk) as usize;
    let m = plan.max_batch as int;
    lemma_pairs_count(plan, n);
    lemma_rows_inside(plan, n);
    lemma_pair_stage_inside(plan, entries, n);
    lemma_lap_inside(plan, Phase::Router);
    lemma_lap_inside(plan, Phase::Embed);
    lemma_lap_inside(plan, Phase::Moe);
    let topk = Op::TopK { layer, n };
    let admission = Op::Admit { layer, entries };
    let promote = Op::Promote { entries };
    let combine = Op::Combine { layer, n };
    assert(inside(plan, topk) && inside(plan, admission) && inside(plan, promote)) by {
        reveal(inside);
        lemma_less(n as int, m, plan.n_experts as int);
    }
    assert(inside(plan, combine));
}

proof fn lemma_pairs_count(plan: Plan, n: usize)
    requires
        roomy(plan),
        n <= plan.max_batch,
    ensures
        0 <= n * plan.topk <= plan.max_batch * plan.topk,
{
    lemma_less(n as int, plan.max_batch as int, plan.topk as int);
}

proof fn lemma_layers_inside(plan: Plan, l: int, n: usize, span: usize, mode: Mode)
    requires
        plan.wf(),
        roomy(plan),
        plan.step_fits(n),
        0 <= l <= plan.layers@.len(),
        n <= plan.max_batch,
    ensures
        all_inside(plan, plan.layers_upto(l, n, span, mode)),
    decreases l,
{
    if l > 0 {
        lemma_layers_inside(plan, l - 1, n, span, mode);
        lemma_attention_inside(plan, l - 1, n, span, mode);
        lemma_projection_inside(plan, l - 1, n, mode);
        lemma_shared_inside(plan, l - 1, n, mode);
        lemma_device_inside(plan, l - 1, n, mode);
    }
}

proof fn lemma_tail_inside(plan: Plan, n: usize, mode: Mode, sample: bool)
    requires
        plan.wf(),
        roomy(plan),
        n <= plan.max_batch,
    ensures
        all_inside(plan, plan.tail(n, mode)),
        all_inside(plan, plan.finish(n, sample)),
{
    lemma_rows_inside(plan, n);
    lemma_norm_inside(plan, n, Buf::Residual, Norm::Final, Buf::Normed);
    lemma_gemv_inside(plan, n, plan.vocab, HIDDEN, Matrix::LmHead, Buf::SharedQ8);
    lemma_lap_inside(plan, Phase::Combine);
    let choice = Op::Sample { n };
    let download = Op::DownloadLogits { n };
    assert(inside(plan, choice) && inside(plan, download)) by {
        reveal(inside);
        lemma_less(n as int, plan.max_batch as int, plan.vocab as int);
    }
}

/// Every operation of a captured step stays inside its buffers.
pub proof fn stack_stays_inside(plan: Plan, n: usize, mode: Mode)
    requires
        plan.wf(),
        roomy(plan),
        plan.step_fits(n),
        n <= plan.max_batch,
    ensures
        all_inside(plan, plan.stack(n, mode)),
{
    lemma_layers_inside(plan, plan.layers@.len() as int, n, plan.max_seq, mode);
    lemma_tail_inside(plan, n, mode, true);
    lemma_lap_inside(plan, Phase::Embed);
}

/// Every operation of a live step stays inside its buffers, with experts chosen on
/// the host, as long as there are no more pairs than the sequences can have.
pub proof fn host_step_stays_inside(
    plan: Plan,
    l: int,
    n: usize,
    span: usize,
    mode: Mode,
    n_pairs: usize,
    any_host: bool,
    sample: bool,
)
    requires
        plan.wf(),
        roomy(plan),
        0 <= l < plan.layers@.len(),
        n <= plan.max_batch,
        n_pairs <= n * plan.topk,
    ensures
        all_inside(plan, plan.front(l, n, span, mode)),
        all_inside(plan, plan.host_choice(n)),
        all_inside(plan, plan.host_experts(l, n, n_pairs, any_host)),
        all_inside(plan, plan.tail(n, mode)),
        all_inside(plan, plan.finish(n, sample)),
{
    lemma_attention_inside(plan, l, n, span, mode);
    lemma_projection_inside(plan, l, n, mode);
    lemma_shared_inside(plan, l, n, mode);
    lemma_tail_inside(plan, n, mode, sample);
    lemma_pairs_count(plan, n);
    lemma_rows_inside(plan, n);
    lemma_pair_stage_inside(plan, n_pairs, n);
    lemma_lap_inside(plan, Phase::Router);
    lemma_lap_inside(plan, Phase::Moe);
    lemma_norm_inside(plan, n, Buf::SharedIn, Norm::Plain, Buf::RoutedOut);
    let layer = l as usize;
    let download = Op::DownloadRouter { n };
    let upload = Op::UploadPairs { n_pairs };
    let combine = Op::Combine { layer, n };
    assert(inside(plan, download) && inside(plan, upload)) by {
        reveal(inside);
        lemma_less(n as int, plan.max_batch as int, HIDDEN as int);
        lemma_less(n as int, plan.max_batch as int, plan.n_experts as int);
    }
    assert(inside(plan, combine));
}

/// The kernel that an operation calls, if any, accepts the call.
#[verifier::opaque]
pub open spec fn accepted(plan: Plan, op: Op) -> bool {
    match op.kernel(plan) {
        Some(launch) => launch.plan() is Ok,
        None => true,
    }
}

/// Every call is accepted.
pub open spec fn all_accepted(plan: Plan, ops: Seq<Op>) -> bool {
    forall|i: int| 0 <= i < ops.len() ==> accepted(plan, #[trigger] ops[i])
}

/// The router and the attention kernel take that many experts and positions, and
/// what a step works on can be numbered in 31 bits.
pub open spec fn launchable(plan: Plan, span: usize) -> bool {
    let m = plan.max_batch as int;
    let limit = i32::MAX as int;
    &&& plan.n_experts <= 1024
    &&& plan.topk <= 32
    &&& span * 4 <= 49152
    &&& m <= limit
    &&& plan.n_heads <= limit
    &&& m * plan.n_heads <= limit
    &&& m * HIDDEN <= limit
    &&& plan.ffn <= limit
    &&& m * plan.ffn <= limit
    &&& plan.moe_inter <= limit
    &&& m * plan.topk <= limit
    &&& m * plan.topk * plan.moe_inter <= limit
    &&& plan.vocab <= limit
    &&& forall|l: int|
        0 <= l < plan.layers@.len() ==> {
            let s = #[trigger] plan.layers@[l];
            &&& s.qkv_rows <= limit
            &&& m * s.q_rows <= limit
            &&& m * s.kv_heads <= limit
        }
}

proof fn lemma_quantize_accepted(plan: Plan, src: Buf, dst: Buf, k: usize, n: int, m: int)
    requires
        0 <= n <= m,
        n <= usize::MAX,
        k % 32 == 0,
        m * k <= i32::MAX,
        plan.size(dst) == q8_rows(m, k as int),
    ensures
        accepted(plan, Op::Quantize { src, dst, k, n: n as usize }),
{
    reveal(accepted);
    let b = k as int / 32;
    lemma_less(n, m, b);
    assert(m * k == m * b * 32) by (nonlinear_arith)
        requires
            k == b * 32,
    ;
    assert(n * (b * 40) == n * b * 40) by (nonlinear_arith);
}

proof fn lemma_gemv_accepted(plan: Plan, matrix: Matrix, x: Buf, y: Buf, n_rows: usize, k: usize, n: usize)
    requires
        k % 32 == 0,
        k <= i32::MAX,
        n_rows <= u32::MAX,
        n <= i32::MAX,
    ensures
        accepted(plan, Op::Gemv { matrix, x, y, n_rows, k, n }),
{
    reveal(accepted);
}

proof fn lemma_heads_accepted(plan: Plan, layer: usize, section: Section, offset: usize, heads: usize, n: usize)
    requires
        n <= plan.max_batch,
        plan.max_batch * heads <= i32::MAX,
    ensures
        accepted(plan, Op::NormHeads { layer, section, offset, heads, n }),
        accepted(plan, Op::RopeHeads { layer, offset, heads, n }),
{
    reveal(accepted);
    lemma_less(n as int, plan.max_batch as int, heads as int);
}

proof fn lemma_plain_accepted(plan: Plan, n: usize, span: usize)
    requires
        launchable(plan, span),
        n <= plan.max_batch,
    ensures
        forall|src: Buf, norm: Norm, dst: Buf| #[trigger]
            accepted(plan, Op::RmsNorm { src, norm, dst, n }),
        forall|src: Buf, dst: Buf| #[trigger] accepted(plan, Op::Add { dst, src, n }),
        forall|layer: usize| #[trigger] accepted(plan, Op::Attend { layer, span, n }),
        forall|layer: usize| #[trigger] accepted(plan, Op::RouterGemv { layer, n }),
        forall|layer: usize| #[trigger] accepted(plan, Op::TopK { layer, n }),
        forall|layer: usize| #[trigger] accepted(plan, Op::Combine { layer, n }),
        forall|phase: Phase| #[trigger] accepted(plan, Op::Lap(phase)),
        accepted(plan, Op::StartLap),
        accepted(plan, Op::WaitPending),
        accepted(plan, Op::Fork),
        accepted(plan, Op::Join),
        accepted(plan, Op::ClearRouted { n }),
        accepted(plan, Op::Sample { n }),
{
    reveal(accepted);
}

proof fn lemma_attention_accepted(plan: Plan, l: int, n: usize, span: usize, mode: Mode)
    requires
        plan.wf(),
        launchable(plan, span),
        0 <= l < plan.layers@.len(),
        n <= plan.max_batch,
    ensures
        all_accepted(plan, plan.attention(l, n, span, mode)),
{
    let s: LayerShape = plan.layers@[l];
    let layer = l as usize;
    let m = plan.max_batch as int;
    let value_at = (s.q_rows + s.kv_dim) as usize;
    let rows = Buf::Rows(s.qkv_rows);
    lemma_plain_accepted(plan, n, span);
    lemma_quantize_accepted(plan, Buf::Normed, Buf::Quants(HIDDEN), HIDDEN, n as int, m);
    lemma_gemv_accepted(
        plan,
        Matrix::Qkv(layer),
        Buf::Quants(HIDDEN),
        rows,
        s.qkv_rows,
        HIDDEN,
        n,
    );
    lemma_heads_accepted(plan, layer, Section::Query, 0, plan.n_heads, n);
    lemma_heads_accepted(plan, layer, Section::Key, s.q_rows, s.kv_heads, n);
    lemma_heads_accepted(plan, layer, Section::Value, value_at, s.kv_heads, n);
    let keys = Op::AppendKv { layer, pool: Buf::Keys(layer), offset: s.q_rows, n };
    let values = Op::AppendKv { layer, pool: Buf::Values(layer), offset: value_at, n };
    let gather = Op::GatherQueries { layer, n };
    assert(accepted(plan, keys) && accepted(plan, values) && accepted(plan, gather)) by {
        reveal(accepted);
    }
}

proof fn lemma_dense_accepted(plan: Plan, l: int, n: usize, span: usize, mode: Mode)
    requires
        plan.wf(),
        launchable(plan, span),
        0 <= l < plan.layers@.len(),
        1 <= n <= plan.max_batch,
    ensures
        all_accepted(plan, plan.projection(l, n, mode)),
        all_accepted(plan, plan.shared_branch(l, n, mode)),
{
    let s: LayerShape = plan.layers@[l];
    let layer = l as usize;
    let m = plan.max_batch as int;
    let width = (2 * plan.ffn) as usize;
    lemma_less(1, m, s.q_rows as int);
    lemma_plain_accepted(plan, n, span);
    lemma_quantize_accepted(
        plan,
        Buf::Attended,
        Buf::Quants(s.q_rows),
        s.q_rows,
        n as int,
        m,
    );
    lemma_quantize_accepted(plan, Buf::SharedIn, Buf::SharedQ8, HIDDEN, n as int, m);
    lemma_quantize_accepted(
        plan,
        Buf::SharedActs,
        Buf::Quants(plan.ffn),
        plan.ffn,
        n as int,
        m,
    );
    lemma_gemv_accepted(
        plan,
        Matrix::Out(layer),
        Buf::Quants(s.q_rows),
        Buf::Rows(HIDDEN),
        HIDDEN,
        s.q_rows,
        n,
    );
    lemma_gemv_accepted(
        plan,
        Matrix::GateUp(layer),
        Buf::SharedQ8,
        Buf::Rows(width),
        width,
        HIDDEN,
        n,
    );
    lemma_gemv_accepted(
        plan,
        Matrix::Down(layer),
        Buf::Quants(plan.ffn),
        Buf::Rows(HIDDEN),
        HIDDEN,
        plan.ffn,
        n,
    );
    let gelu = Op::Gelu { src: Buf::Rows(width), dst: Buf::SharedActs, inter: plan.ffn, n };
    assert(accepted(plan, gelu)) by {
        reveal(accepted);
        lemma_less(n as int, m, plan.ffn as int);
        assert(plan.ffn * n == n * plan.ffn) by (nonlinear_arith);
    }
}

proof fn lemma_experts_accepted(plan: Plan, l: int, n: usize, span: usize, mode: Mode)
    requires
        plan.wf(),
        roomy(plan),
        launchable(plan, span),
        0 <= l < plan.layers@.len(),
        1 <= n <= plan.max_batch,
    ensures
        all_accepted(plan, plan.device_experts(l, n, mode)),
{
    let layer = l as usize;
    let m = plan.max_batch as int;
    let p = n * plan.topk;
    let q = m * plan.topk;
    lemma_less(n as int, m, plan.topk as int);
    let entries = p as usize;
    lemma_plain_accepted(plan, n, span);
    lemma_quantize_accepted(plan, Buf::RoutedIn, Buf::RoutedQ8, HIDDEN, n as int, m);
    assert(entries == p);
    lemma_quantize_accepted(plan, Buf::PairActs, Buf::PairActsQ8, plan.moe_inter, p, q);
    let admission = Op::Admit { layer, entries };
    let promote = Op::Promote { entries };
    let gelu = Op::Gelu {
        src: Buf::PairGateUp,
        dst: Buf::PairActs,
        inter: plan.moe_inter,
        n: entries,
    };
    let width = (2 * plan.moe_inter) as usize;
    let up = Op::GemvPairs {
        offset: 0,
        index: Buf::PairIndex,
        x: Buf::RoutedQ8,
        x_rows: n,
        y: Buf::PairGateUp,
        n_rows: width,
        k: HIDDEN,
        n_pairs: entries,
    };
    let down = Op::GemvPairs {
        offset: plan.gate_up_bytes,
        index: Buf::Identity,
        x: Buf::PairActsQ8,
        x_rows: entries,
        y: Buf::PairDown,
        n_rows: HIDDEN,
        k: plan.moe_inter,
        n_pairs: entries,
    };
    let reduce = Op::ReducePairs { n_pairs: entries, n };
    assert(accepted(plan, admission) && accepted(plan, promote) && accepted(plan, gelu)
        && accepted(plan, up) && accepted(plan, down) && accepted(plan, reduce)) by {
        reveal(accepted);
        lemma_less(p as int, q, plan.moe_inter as int);
        assert(plan.moe_inter * entries == p * plan.moe_inter) by (nonlinear_arith)
            requires
                entries == p,
        ;
    }
}

proof fn lemma_layers_accepted(plan: Plan, l: int, n: usize, span: usize, mode: Mode)
    requires
        plan.wf(),
        roomy(plan),
        launchable(plan, span),
        0 <= l <= plan.layers@.len(),
        1 <= n <= plan.max_batch,
    ensures
        all_accepted(plan, plan.layers_upto(l, n, span, mode)),
    decreases l,
{
    if l > 0 {
        lemma_layers_accepted(plan, l - 1, n, span, mode);
        lemma_attention_accepted(plan, l - 1, n, span, mode);
        lemma_dense_accepted(plan, l - 1, n, span, mode);
        lemma_experts_accepted(plan, l - 1, n, span, mode);
    }
}

/// Every kernel call of a captured step is accepted.
pub proof fn stack_is_accepted(plan: Plan, n: usize, mode: Mode)
    requires
        plan.wf(),
        roomy(plan),
        launchable(plan, plan.max_seq),
        1 <= n <= plan.max_batch,
    ensures
        all_accepted(plan, plan.stack(n, mode)),
{
    let m = plan.max_batch as int;
    lemma_layers_accepted(plan, plan.layers@.len() as int, n, plan.max_seq, mode);
    lemma_plain_accepted(plan, n, plan.max_seq);
    lemma_quantize_accepted(plan, Buf::Normed, Buf::SharedQ8, HIDDEN, n as int, m);
    lemma_gemv_accepted(
        plan,
        Matrix::LmHead,
        Buf::SharedQ8,
        Buf::Logits,
        plan.vocab,
        HIDDEN,
        n,
    );
}

} // verus!
