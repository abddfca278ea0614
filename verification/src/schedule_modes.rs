//! What the ways to issue a step have in common: a step in which parts are left out is the
//! whole step without the operations of these parts, and a step that is captured is the
//! live one without what measures time.

use crate::config::HIDDEN;
use crate::launch::Launch;
use crate::plan::{Buf, Plan};
use crate::schedule::{given, Matrix, Mode, Norm, Op, Phase, Section};
use crate::schedule_flow::host_layers;
use vstd::prelude::*;

verus! {

/// A live step with nothing left out.
pub open spec fn everything() -> Mode {
    Mode {
        live: true,
        skip_attn: false,
        skip_dense: false,
        skip_moe: false,
        skip_lm_head: false,
    }
}

/// An operation of the layers or of the tail is issued in a mode: what measures time and
/// what waits for copies of the step before only live; attention, the products of the
/// layers, the experts and the last product where they are not left out.
pub open spec fn issued_in(mode: Mode, op: Op) -> bool {
    match op {
        Op::StartLap | Op::Lap(_) | Op::WaitPending => mode.live,
        Op::Attend { layer, span, n } => !mode.skip_attn,
        Op::Gemv { matrix, x, y, n_rows, k, n } => if matrix == Matrix::LmHead {
            !mode.skip_lm_head
        } else {
            !mode.skip_dense
        },
        Op::GemvPairs { offset, index, x, x_rows, y, n_rows, k, n_pairs } => !mode.skip_moe,
        Op::ReducePairs { n_pairs, n } => !mode.skip_moe,
        Op::Gelu { src, dst, inter, n } => src != Buf::PairGateUp || !mode.skip_moe,
        Op::Quantize { src, dst, k, n } => src != Buf::PairActs || !mode.skip_moe,
        _ => true,
    }
}

/// The operations that are issued in a mode.
pub open spec fn remaining(mode: Mode, ops: Seq<Op>) -> Seq<Op>
    decreases ops.len(),
{
    if ops.len() == 0 {
        seq![]
    } else if issued_in(mode, ops.last()) {
        remaining(mode, ops.drop_last()).push(ops.last())
    } else {
        remaining(mode, ops.drop_last())
    }
}

proof fn lemma_parts(mode: Mode, a: Seq<Op>, b: Seq<Op>)
    ensures
        remaining(mode, a + b) == remaining(mode, a) + remaining(mode, b),
    decreases b.len(),
{
    if b.len() == 0 {
        assert(a + b =~= a);
        assert(remaining(mode, a) + remaining(mode, b) =~= remaining(mode, a));
    } else {
        assert((a + b).drop_last() =~= a + b.drop_last());
        lemma_parts(mode, a, b.drop_last());
        assert(remaining(mode, a + b) =~= remaining(mode, a) + remaining(mode, b));
    }
}

proof fn one_more(mode: Mode, ops: Seq<Op>, op: Op) -> (r: Seq<Op>)
    ensures
        r == ops.push(op),
        remaining(mode, r) == remaining(mode, ops) + given(issued_in(mode, op), op),
{
    assert(ops.push(op).drop_last() =~= ops);
    assert(remaining(mode, ops.push(op)) =~= remaining(mode, ops) + given(
        issued_in(mode, op),
        op,
    ));
    ops.push(op)
}

proof fn lemma_attention(plan: Plan, l: int, n: usize, span: usize, mode: Mode)
    ensures
        plan.attention(l, n, span, mode) == remaining(
            mode,
            plan.attention(l, n, span, everything()),
        ),
{
    let s = plan.layers@[l];
    let layer = l as usize;
    let value_at = (s.q_rows + s.kv_dim) as usize;
    let (heads, kv_heads) = (plan.n_heads, s.kv_heads);
    let rows = Buf::Rows(s.qkv_rows);
    let c = Seq::<Op>::empty();
    let c = one_more(mode, c, Op::StartLap);
    let c = one_more(
        mode,
        c,
        Op::RmsNorm { src: Buf::Residual, norm: Norm::Attn(layer), dst: Buf::Normed, n },
    );
    let c = one_more(
        mode,
        c,
        Op::Quantize { src: Buf::Normed, dst: Buf::Quants(HIDDEN), k: HIDDEN, n },
    );
    let c = one_more(
        mode,
        c,
        Op::Gemv {
            matrix: Matrix::Qkv(layer),
            x: Buf::Quants(HIDDEN),
            y: rows,
            n_rows: s.qkv_rows,
            k: HIDDEN,
            n,
        },
    );
    let c = one_more(mode, c, Op::NormHeads { layer, section: Section::Query, offset: 0, heads, n });
    let c = one_more(
        mode,
        c,
        Op::NormHeads { layer, section: Section::Key, offset: s.q_rows, heads: kv_heads, n },
    );
    let c = one_more(
        mode,
        c,
        Op::NormHeads { layer, section: Section::Value, offset: value_at, heads: kv_heads, n },
    );
    let c = one_more(mode, c, Op::RopeHeads { layer, offset: 0, heads, n });
    let c = one_more(mode, c, Op::RopeHeads { layer, offset: s.q_rows, heads: kv_heads, n });
    let c = one_more(mode, c, Op::AppendKv { layer, pool: Buf::Keys(layer), offset: s.q_rows, n });
    let c = one_more(mode, c, Op::AppendKv { layer, pool: Buf::Values(layer), offset: value_at, n });
    let c = one_more(mode, c, Op::GatherQueries { layer, n });
    let c = one_more(mode, c, Op::Attend { layer, span, n });
    let c = one_more(mode, c, Op::Lap(Phase::Attn));
    assert(c =~= plan.attention(l, n, span, everything()));
    assert(remaining(mode, c) =~= plan.attention(l, n, span, mode));
}

proof fn lemma_projection(plan: Plan, l: int, n: usize, mode: Mode)
    ensures
        plan.projection(l, n, mode) == remaining(mode, plan.projection(l, n, everything())),
{
    let s = plan.layers@[l];
    let layer = l as usize;
    let c = Seq::<Op>::empty();
    let c = one_more(
        mode,
        c,
        Op::Quantize { src: Buf::Attended, dst: Buf::Quants(s.q_rows), k: s.q_rows, n },
    );
    let c = one_more(
        mode,
        c,
        Op::Gemv {
            matrix: Matrix::Out(layer),
            x: Buf::Quants(s.q_rows),
            y: Buf::Rows(HIDDEN),
            n_rows: HIDDEN,
            k: s.q_rows,
            n,
        },
    );
    let c = one_more(
        mode,
        c,
        Op::RmsNorm { src: Buf::Rows(HIDDEN), norm: Norm::PostAttn(layer), dst: Buf::Normed, n },
    );
    let c = one_more(mode, c, Op::Add { dst: Buf::Residual, src: Buf::Normed, n });
    let c = one_more(mode, c, Op::Lap(Phase::OutGemv));
    assert(c =~= plan.projection(l, n, everything()));
    assert(remaining(mode, c) =~= plan.projection(l, n, mode));
}

proof fn lemma_shared(plan: Plan, l: int, n: usize, mode: Mode)
    ensures
        plan.shared_branch(l, n, mode) == remaining(mode, plan.shared_branch(l, n, everything())),
{
    let layer = l as usize;
    let width = (2 * plan.ffn) as usize;
    let c = Seq::<Op>::empty();
    let c = one_more(
        mode,
        c,
        Op::RmsNorm { src: Buf::Residual, norm: Norm::Ffn(layer), dst: Buf::SharedIn, n },
    );
    let c = one_more(
        mode,
        c,
        Op::RmsNorm { src: Buf::Residual, norm: Norm::PreRouted(layer), dst: Buf::RoutedIn, n },
    );
    let c = one_more(mode, c, Op::Quantize { src: Buf::SharedIn, dst: Buf::SharedQ8, k: HIDDEN, n });
    let c = one_more(
        mode,
        c,
        Op::Gemv {
            matrix: Matrix::GateUp(layer),
            x: Buf::SharedQ8,
            y: Buf::Rows(width),
            n_rows: width,
            k: HIDDEN,
            n,
        },
    );
    let c = one_more(
        mode,
        c,
        Op::Gelu { src: Buf::Rows(width), dst: Buf::SharedActs, inter: plan.ffn, n },
    );
    let c = one_more(
        mode,
        c,
        Op::Quantize { src: Buf::SharedActs, dst: Buf::Quants(plan.ffn), k: plan.ffn, n },
    );
    let c = one_more(
        mode,
        c,
        Op::Gemv {
            matrix: Matrix::Down(layer),
            x: Buf::Quants(plan.ffn),
            y: Buf::Rows(HIDDEN),
            n_rows: HIDDEN,
            k: plan.ffn,
            n,
        },
    );
    let c = one_more(
        mode,
        c,
        Op::RmsNorm { src: Buf::Residual, norm: Norm::Plain, dst: Buf::Normed, n },
    );
    let c = one_more(mode, c, Op::RouterGemv { layer, n });
    let c = one_more(mode, c, Op::Lap(Phase::SharedMlp));
    assert(c =~= plan.shared_branch(l, n, everything()));
    assert(remaining(mode, c) =~= plan.shared_branch(l, n, mode));
}

proof fn lemma_pairs(plan: Plan, n_pairs: usize, n: usize, mode: Mode)
    ensures
        remaining(mode, plan.pair_stage(n_pairs, n)) == if mode.skip_moe {
            seq![]
        } else {
            plan.pair_stage(n_pairs, n)
        },
{
    let all = plan.pair_stage(n_pairs, n);
    let c = Seq::<Op>::empty();
    let c = one_more(mode, c, all[0]);
    let c = one_more(mode, c, all[1]);
    let c = one_more(mode, c, all[2]);
    let c = one_more(mode, c, all[3]);
    let c = one_more(mode, c, all[4]);
    assert(c =~= all);
    assert(all[0] is GemvPairs && all[3] is GemvPairs && all[4] is ReducePairs);
    assert(all[1] is Gelu && all[2] is Quantize);
    if mode.skip_moe {
        assert(remaining(mode, c) =~= seq![]);
    } else {
        assert(remaining(mode, c) =~= all);
    }
}

proof fn lemma_device(plan: Plan, l: int, n: usize, mode: Mode)
    ensures
        plan.device_experts(l, n, mode) == remaining(
            mode,
            plan.device_experts(l, n, everything()),
        ),
{
    let layer = l as usize;
    let entries = (n * plan.topk) as usize;
    let c = Seq::<Op>::empty();
    let c = one_more(mode, c, Op::Quantize { src: Buf::RoutedIn, dst: Buf::RoutedQ8, k: HIDDEN, n });
    let c = one_more(mode, c, Op::TopK { layer, n });
    let c = one_more(mode, c, Op::Lap(Phase::Router));
    let c = one_more(mode, c, Op::WaitPending);
    let c = one_more(mode, c, Op::Admit { layer, entries });
    let c = one_more(mode, c, Op::Fork);
    let c = one_more(mode, c, Op::Promote { entries });
    let c = one_more(mode, c, Op::Join);
    let c = one_more(mode, c, Op::Lap(Phase::Embed));
    let c = one_more(mode, c, Op::ClearRouted { n });
    let pairs = plan.pair_stage(entries, n);
    lemma_parts(mode, c, pairs);
    lemma_pairs(plan, entries, n, mode);
    let d = c + pairs;
    let d = one_more(mode, d, Op::Combine { layer, n });
    let d = one_more(mode, d, Op::Lap(Phase::Moe));
    assert(d =~= plan.device_experts(l, n, everything()));
    assert(remaining(mode, d) =~= plan.device_experts(l, n, mode));
}

proof fn lemma_tail(plan: Plan, n: usize, mode: Mode)
    ensures
        plan.tail(n, mode) == remaining(mode, plan.tail(n, everything())),
{
    let c = Seq::<Op>::empty();
    let c = one_more(
        mode,
        c,
        Op::RmsNorm { src: Buf::Residual, norm: Norm::Final, dst: Buf::Normed, n },
    );
    let c = one_more(mode, c, Op::Quantize { src: Buf::Normed, dst: Buf::SharedQ8, k: HIDDEN, n });
    let c = one_more(
        mode,
        c,
        Op::Gemv {
            matrix: Matrix::LmHead,
            x: Buf::SharedQ8,
            y: Buf::Logits,
            n_rows: plan.vocab,
            k: HIDDEN,
            n,
        },
    );
    let c = one_more(mode, c, Op::Lap(Phase::Combine));
    assert(c =~= plan.tail(n, everything()));
    assert(remaining(mode, c) =~= plan.tail(n, mode));
}

/// The layers in any mode are the layers of the whole step without what the mode leaves
/// out.
pub proof fn layers_leave_out_what_the_mode_says(
    plan: Plan,
    l: int,
    n: usize,
    span: usize,
    mode: Mode,
)
    ensures
        plan.layers_upto(l, n, span, mode) == remaining(
            mode,
            plan.layers_upto(l, n, span, everything()),
        ),
    decreases l,
{
    if l <= 0 {
        assert(plan.layers_upto(l, n, span, everything()) =~= seq![]);
    } else {
        layers_leave_out_what_the_mode_says(plan, l - 1, n, span, mode);
        let all = everything();
        let before = plan.layers_upto(l - 1, n, span, all);
        let front = plan.front(l - 1, n, span, all);
        let (a, b, c) = (
            plan.attention(l - 1, n, span, all),
            plan.projection(l - 1, n, all),
            plan.shared_branch(l - 1, n, all),
        );
        lemma_attention(plan, l - 1, n, span, mode);
        lemma_projection(plan, l - 1, n, mode);
        lemma_shared(plan, l - 1, n, mode);
        lemma_device(plan, l - 1, n, mode);
        lemma_parts(mode, a + b, c);
        lemma_parts(mode, a, b);
        lemma_parts(mode, before + front, plan.device_experts(l - 1, n, all));
        lemma_parts(mode, before, front);
    }
}

/// A captured step is the layers, a wait for copies, and the tail, each without what its
/// mode leaves out, and then the choice of the next tokens.
pub proof fn captured_steps_leave_out_what_the_mode_says(plan: Plan, n: usize, mode: Mode)
    ensures
        plan.stack(n, mode) == remaining(
            mode,
            plan.layers_upto(plan.layers@.len() as int, n, plan.max_seq, everything()),
        ) + seq![Op::WaitPending] + remaining(mode, plan.tail(n, everything())) + seq![
            Op::Sample { n },
        ],
{
    layers_leave_out_what_the_mode_says(plan, plan.layers@.len() as int, n, plan.max_seq, mode);
    lemma_tail(plan, n, mode);
}

/// With experts chosen on the host, each layer is issued behind the one before: up to the
/// experts, the scores for the host to choose by, and then what it chose.
pub proof fn host_layers_follow_each_other(
    plan: Plan,
    l: int,
    n: usize,
    span: usize,
    mode: Mode,
    work: Seq<(usize, bool)>,
)
    requires
        0 <= l,
    ensures
        host_layers(plan, 0, n, span, mode, work) == Seq::<Op>::empty(),
        host_layers(plan, l + 1, n, span, mode, work) == host_layers(plan, l, n, span, mode, work)
            + plan.attention(l, n, span, mode) + plan.projection(l, n, mode) + plan.shared_branch(
            l,
            n,
            mode,
        ) + seq![Op::DownloadRouter { n }] + plan.host_experts(l, n, work[l].0, work[l].1),
{
    let before = host_layers(plan, l, n, span, mode, work);
    assert(host_layers(plan, l + 1, n, span, mode, work) =~= before + plan.attention(
        l,
        n,
        span,
        mode,
    ) + plan.projection(l, n, mode) + plan.shared_branch(l, n, mode) + seq![
        Op::DownloadRouter { n },
    ] + plan.host_experts(l, n, work[l].0, work[l].1));
}

/// The kernel of an operation has the sizes of the operation: rows, columns, heads and
/// sequences.
pub proof fn kernels_have_the_sizes_of_their_operations(plan: Plan, op: Op)
    ensures
        match op {
            Op::RmsNorm { src, norm, dst, n } => op.kernel(plan) == Some(Launch::Rows { n }),
            Op::Quantize { src, dst, k, n } => op.kernel(plan) is Some && op.kernel(plan)->0
                is QuantizeQ8 && op.kernel(plan)->0->QuantizeQ8_k == k
                && op.kernel(plan)->0->QuantizeQ8_n == n && op.kernel(plan)->0->QuantizeQ8_q8_len
                == plan.size(dst) as usize,
            Op::Gemv { matrix, x, y, n_rows, k, n } => op.kernel(plan) == Some(
                Launch::GemvQ4r { n_rows, k, n_entries: n },
            ),
            Op::NormHeads { layer, section, offset, heads, n } => op.kernel(plan) == Some(
                Launch::NormHeads { n_seqs: n, heads },
            ),
            Op::RopeHeads { layer, offset, heads, n } => op.kernel(plan) == Some(
                Launch::RopeHeads { n_seqs: n, heads },
            ),
            Op::AppendKv { layer, pool, offset, n } => op.kernel(plan) == Some(
                Launch::Strips { dim: plan.layers@[layer as int].kv_dim, n },
            ),
            Op::GatherQueries { layer, n } => op.kernel(plan) == Some(
                Launch::Strips { dim: plan.layers@[layer as int].q_rows, n },
            ),
            Op::Attend { layer, span, n } => op.kernel(plan) == Some(
                Launch::AttnBatch { n_heads: plan.n_heads, n_seqs: n, max_ctx: span },
            ),
            Op::Add { dst, src, n } => op.kernel(plan) == Some(Launch::Strips { dim: HIDDEN, n }),
            Op::Gelu { src, dst, inter, n } => op.kernel(plan) == Some(
                Launch::FlatRows { inter, n },
            ),
            Op::RouterGemv { layer, n } => op.kernel(plan) == Some(
                Launch::GemvRows { n_rows: plan.n_experts, n_seqs: n },
            ),
            Op::TopK { layer, n } => op.kernel(plan) == Some(
                Launch::Router { n_experts: plan.n_experts, topk: plan.topk, n_seqs: n },
            ),
            Op::Admit { layer, entries } => op.kernel(plan) == Some(
                Launch::Admit { n_entries: entries },
            ),
            Op::Promote { entries } => op.kernel(plan) == Some(
                Launch::Promote { n_entries: entries },
            ),
            Op::GemvPairs { offset, index, x, x_rows, y, n_rows, k, n_pairs } => op.kernel(plan)
                == Some(Launch::GemvQ4r { n_rows, k, n_entries: n_pairs }),
            Op::ReducePairs { n_pairs, n } => op.kernel(plan) == Some(
                Launch::Strips { dim: HIDDEN, n },
            ),
            Op::Combine { layer, n } => op.kernel(plan) == Some(
                Launch::Combine { dim: HIDDEN, n },
            ),
            Op::Sample { n } => op.kernel(plan) == Some(Launch::Sample { n_seqs: n }),
            _ => op.kernel(plan) is None,
        },
{
}

/// The measurements of time among operations.
pub open spec fn laps(ops: Seq<Op>) -> Seq<Op>
    decreases ops.len(),
{
    if ops.len() == 0 {
        seq![]
    } else if ops.last() is StartLap || ops.last() is Lap {
        laps(ops.drop_last()).push(ops.last())
    } else {
        laps(ops.drop_last())
    }
}

proof fn lemma_laps_of_parts(a: Seq<Op>, b: Seq<Op>)
    ensures
        laps(a + b) == laps(a) + laps(b),
    decreases b.len(),
{
    if b.len() == 0 {
        assert(a + b =~= a);
        assert(laps(a) + laps(b) =~= laps(a));
    } else {
        assert((a + b).drop_last() =~= a + b.drop_last());
        lemma_laps_of_parts(a, b.drop_last());
        assert(laps(a + b) =~= laps(a) + laps(b));
    }
}

proof fn lemma_no_laps(ops: Seq<Op>)
    requires
        forall|i: int| 0 <= i < ops.len() ==> !((#[trigger] ops[i]) is StartLap || ops[i] is Lap),
    ensures
        laps(ops) == Seq::<Op>::empty(),
    decreases ops.len(),
{
    if ops.len() > 0 {
        let front = ops.drop_last();
        assert forall|i: int| 0 <= i < front.len() implies !((#[trigger] front[i]) is StartLap
            || front[i] is Lap) by {
            assert(front[i] == ops[i]);
        }
        lemma_no_laps(front);
        assert(ops[ops.len() - 1] == ops.last());
    }
}

proof fn lemma_one_lap(op: Op)
    requires
        op is StartLap || op is Lap,
    ensures
        laps(seq![op]) == seq![op],
{
    reveal_with_fuel(laps, 2);
    assert(seq![op].drop_last() =~= seq![]);
    assert(laps(seq![op]) =~= seq![op]);
}

proof fn lemma_lap_last(ops: Seq<Op>, body: Seq<Op>, op: Op)
    requires
        ops == body + seq![op],
        op is StartLap || op is Lap,
        forall|i: int| 0 <= i < body.len() ==> !((#[trigger] body[i]) is StartLap || body[i] is Lap),
    ensures
        laps(ops) == seq![op],
{
    lemma_no_laps(body);
    lemma_one_lap(op);
    lemma_laps_of_parts(body, seq![op]);
    assert(Seq::<Op>::empty() + seq![op] =~= seq![op]);
}

/// Time is measured from the start of a layer on, and each stretch counts for the part of
/// the layer that it ends: attention, its output, the shared branch, the choice of
/// experts, the copies of experts, and the experts. Nothing is measured in a captured step.
pub proof fn time_is_counted_for_its_part(plan: Plan, l: int, n: usize, span: usize)
    ensures
        laps(plan.attention(l, n, span, everything())) == seq![Op::StartLap, Op::Lap(Phase::Attn)],
        laps(plan.projection(l, n, everything())) == seq![Op::Lap(Phase::OutGemv)],
        laps(plan.shared_branch(l, n, everything())) == seq![Op::Lap(Phase::SharedMlp)],
        laps(plan.device_experts(l, n, everything())) == seq![
            Op::Lap(Phase::Router),
            Op::Lap(Phase::Embed),
            Op::Lap(Phase::Moe),
        ],
        laps(plan.tail(n, everything())) == seq![Op::Lap(Phase::Combine)],
{
    let all = everything();
    let a = plan.attention(l, n, span, all);
    let rest = a.skip(1);
    assert(a =~= seq![Op::StartLap] + rest);
    lemma_laps_of_parts(seq![Op::StartLap], rest);
    lemma_one_lap(Op::StartLap);
    assert(rest =~= rest.drop_last() + seq![Op::Lap(Phase::Attn)]);
    lemma_lap_last(rest, rest.drop_last(), Op::Lap(Phase::Attn));
    assert(laps(a) =~= seq![Op::StartLap, Op::Lap(Phase::Attn)]);
    let b = plan.projection(l, n, all);
    assert(b =~= b.drop_last() + seq![Op::Lap(Phase::OutGemv)]);
    lemma_lap_last(b, b.drop_last(), Op::Lap(Phase::OutGemv));
    let c = plan.shared_branch(l, n, all);
    assert(c =~= c.drop_last() + seq![Op::Lap(Phase::SharedMlp)]);
    lemma_lap_last(c, c.drop_last(), Op::Lap(Phase::SharedMlp));
    let t = plan.tail(n, all);
    assert(t =~= t.drop_last() + seq![Op::Lap(Phase::Combine)]);
    lemma_lap_last(t, t.drop_last(), Op::Lap(Phase::Combine));
    let layer = l as usize;
    let entries = (n * plan.topk) as usize;
    let d1 = seq![
        Op::Quantize { src: Buf::RoutedIn, dst: Buf::RoutedQ8, k: HIDDEN, n },
        Op::TopK { layer, n },
    ] + seq![Op::Lap(Phase::Router)];
    let d2 = seq![
        Op::WaitPending,
        Op::Admit { layer, entries },
        Op::Fork,
        Op::Promote { entries },
        Op::Join,
    ] + seq![Op::Lap(Phase::Embed)];
    let body = seq![Op::ClearRouted { n }] + plan.pair_stage(entries, n) + seq![
        Op::Combine { layer, n },
    ];
    let d3 = body + seq![Op::Lap(Phase::Moe)];
    assert(d1 =~= d1.drop_last() + seq![Op::Lap(Phase::Router)]);
    assert(d2 =~= d2.drop_last() + seq![Op::Lap(Phase::Embed)]);
    lemma_lap_last(d1, d1.drop_last(), Op::Lap(Phase::Router));
    lemma_lap_last(d2, d2.drop_last(), Op::Lap(Phase::Embed));
    assert(body.len() == 7);
    lemma_lap_last(d3, body, Op::Lap(Phase::Moe));
    assert(plan.device_experts(l, n, all) =~= d1 + d2 + d3);
    lemma_laps_of_parts(d1 + d2, d3);
    lemma_laps_of_parts(d1, d2);
    assert(laps(d1 + d2 + d3) =~= seq![
        Op::Lap(Phase::Router),
        Op::Lap(Phase::Embed),
        Op::Lap(Phase::Moe),
    ]);
}

/// The slots of all chosen experts are settled before their copies are started, the copies
/// wait for that, and all of them are waited for before the experts are used.
pub proof fn all_chosen_experts_are_copied(plan: Plan, l: int, n: usize, mode: Mode)
    requires
        plan.step_fits(n),
    ensures
        ({
            let ops = plan.device_experts(l, n, mode);
            let at = if mode.live {
                4int
            } else {
                2int
            };
            &&& ops[at] is Admit && ops[at]->Admit_layer == l as usize && ops[at]->Admit_entries
                == n * plan.topk
            &&& ops[at + 1] is Fork
            &&& ops[at + 2] is Promote && ops[at + 2]->Promote_entries == n * plan.topk
            &&& ops[at + 3] is Join
            &&& forall|i: int| 0 <= i <= at + 3 ==> !((#[trigger] ops[i]) is GemvPairs)
        }),
{
}

/// Where the host chooses, its copies are started once those of the layer before are
/// done, and before anything else of the experts.
pub proof fn host_copies_are_started_first(
    plan: Plan,
    l: int,
    n: usize,
    n_pairs: usize,
    any_host: bool,
)
    ensures
        ({
            let ops = plan.host_experts(l, n, n_pairs, any_host);
            &&& ops[0] == Op::Lap(Phase::Router)
            &&& ops[2] is WaitPending
            &&& ops[3] is FetchExperts
            &&& ops.last() == Op::Lap(Phase::Moe)
            &&& forall|i: int|
                0 <= i < ops.len() && i != 3 ==> !((#[trigger] ops[i]) is FetchExperts)
            &&& n_pairs > 0 ==> ops[5] == Op::UploadPairs { n_pairs }
        }),
{
    let ops = plan.host_experts(l, n, n_pairs, any_host);
    let pairs = if n_pairs > 0 {
        seq![Op::UploadPairs { n_pairs }] + plan.pair_stage(n_pairs, n)
    } else {
        seq![]
    };
    assert forall|i: int| 0 <= i < pairs.len() implies !((#[trigger] pairs[i]) is FetchExperts) by {}
    assert forall|i: int| 0 <= i < ops.len() && i != 3 implies !((
    #[trigger] ops[i]) is FetchExperts) by {
        if 5 <= i < 5 + pairs.len() {
            assert(ops[i] == pairs[i - 5]);
        }
    }
    if n_pairs > 0 {
        assert(ops[5] == pairs[0]);
    }
}

} // verus!
