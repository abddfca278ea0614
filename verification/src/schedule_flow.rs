//! In which order a decode step reads and writes: nothing is read before it is
//! written, and experts are copied into their slots before they are used.

use crate::config::HIDDEN;
use crate::plan::{Buf, LayerShape, Plan};
use crate::schedule::{Matrix, Mode, Norm, Op, Phase, Section};
use vstd::prelude::*;

verus! {

/// The buffers that an operation reads.
pub open spec fn reads(plan: Plan, op: Op) -> Seq<Buf> {
    match op {
        Op::RmsNorm { src, norm, dst, n } => seq![src],
        Op::Quantize { src, dst, k, n } => seq![src],
        Op::Gemv { matrix, x, y, n_rows, k, n } => seq![x, Buf::Zeros, Buf::Identity],
        Op::NormHeads { layer, section, offset, heads, n } => seq![
            Buf::Rows(plan.layers@[layer as int].qkv_rows),
        ],
        Op::RopeHeads { layer, offset, heads, n } => seq![
            Buf::Rows(plan.layers@[layer as int].qkv_rows),
            Buf::Positions,
        ],
        Op::AppendKv { layer, pool, offset, n } => seq![
            Buf::Rows(plan.layers@[layer as int].qkv_rows),
            Buf::Slots,
            Buf::Positions,
        ],
        Op::GatherQueries { layer, n } => seq![Buf::Rows(plan.layers@[layer as int].qkv_rows)],
        Op::Attend { layer, span, n } => seq![
            Buf::Keys(layer),
            Buf::Values(layer),
            Buf::Queries,
            Buf::Slots,
            Buf::Positions,
        ],
        Op::Add { dst, src, n } => seq![dst, src],
        Op::Gelu { src, dst, inter, n } => seq![src],
        Op::RouterGemv { layer, n } => seq![Buf::Normed],
        Op::TopK { layer, n } => seq![Buf::RouterLogits],
        Op::Admit { layer, entries } => seq![Buf::Choices],
        Op::Promote { entries } => seq![Buf::PromoteFrom, Buf::PromoteTo],
        Op::GemvPairs { offset, index, x, x_rows, y, n_rows, k, n_pairs } => seq![
            Buf::PairBases,
            index,
            x,
        ],
        Op::ReducePairs { n_pairs, n } => seq![
            Buf::PairDown,
            Buf::PairWeights,
            Buf::PairSeqs,
            Buf::RoutedOut,
        ],
        Op::Combine { layer, n } => seq![Buf::Residual, Buf::Rows(HIDDEN), Buf::RoutedOut],
        Op::Sample { n } => seq![Buf::Logits, Buf::Temps, Buf::Seeds],
        Op::DownloadRouter { n } => seq![Buf::RouterLogits, Buf::RoutedIn],
        Op::DownloadLogits { n } => seq![Buf::Logits],
        _ => seq![],
    }
}

/// The buffers that an operation writes.
pub open spec fn writes(plan: Plan, op: Op) -> Seq<Buf> {
    match op {
        Op::RmsNorm { src, norm, dst, n } => seq![dst],
        Op::Quantize { src, dst, k, n } => seq![dst],
        Op::Gemv { matrix, x, y, n_rows, k, n } => seq![y],
        Op::NormHeads { layer, section, offset, heads, n } => seq![
            Buf::Rows(plan.layers@[layer as int].qkv_rows),
        ],
        Op::RopeHeads { layer, offset, heads, n } => seq![
            Buf::Rows(plan.layers@[layer as int].qkv_rows),
        ],
        Op::AppendKv { layer, pool, offset, n } => seq![pool],
        Op::GatherQueries { layer, n } => seq![Buf::Queries],
        Op::Attend { layer, span, n } => seq![Buf::Attended],
        Op::Add { dst, src, n } => seq![dst],
        Op::Gelu { src, dst, inter, n } => seq![dst],
        Op::RouterGemv { layer, n } => seq![Buf::RouterLogits],
        Op::TopK { layer, n } => seq![Buf::Choices, Buf::PairWeights],
        Op::Admit { layer, entries } => seq![Buf::PairBases, Buf::PromoteFrom, Buf::PromoteTo],
        Op::ClearRouted { n } => seq![Buf::RoutedOut],
        Op::GemvPairs { offset, index, x, x_rows, y, n_rows, k, n_pairs } => seq![y],
        Op::ReducePairs { n_pairs, n } => seq![Buf::RoutedOut],
        Op::Combine { layer, n } => seq![Buf::Residual],
        Op::Sample { n } => seq![Buf::Tokens, Buf::Seeds],
        Op::UploadPairs { n_pairs } => seq![
            Buf::PairBases,
            Buf::PairIndex,
            Buf::PairWeights,
            Buf::PairSeqs,
        ],
        Op::HostExperts { n } => seq![Buf::SharedIn],
        _ => seq![],
    }
}

/// A buffer holds something once the operations have run: it did before, or one of
/// them writes it.
#[verifier::opaque]
pub open spec fn filled(plan: Plan, ops: Seq<Op>, start: Set<Buf>, buf: Buf) -> bool
    decreases ops.len(),
{
    if ops.len() == 0 {
        start.contains(buf)
    } else {
        filled(plan, ops.drop_last(), start, buf) || writes(plan, ops.last()).contains(buf)
    }
}

/// Nothing is read before it is written.
#[verifier::opaque]
pub open spec fn flows(plan: Plan, ops: Seq<Op>, start: Set<Buf>) -> bool
    decreases ops.len(),
{
    ops.len() > 0 ==> {
        &&& flows(plan, ops.drop_last(), start)
        &&& forall|i: int|
            0 <= i < reads(plan, ops.last()).len() ==> filled(
                plan,
                ops.drop_last(),
                start,
                #[trigger] reads(plan, ops.last())[i],
            )
    }
}

/// How far the copies of missing experts are.
pub enum Stage {
    /// Copies were chosen, but not issued.
    Chosen,
    /// Copies may be issued.
    Forked,
    /// Copies were issued.
    Copying,
    /// Copies are done.
    InPlace,
}

/// How far the copies are behind one more operation.
pub open spec fn next_stage(stage: Stage, op: Op) -> Stage {
    match op {
        Op::Admit { layer, entries } => Stage::Chosen,
        Op::Fork => Stage::Forked,
        Op::Promote { entries } => Stage::Copying,
        Op::Join => Stage::InPlace,
        _ => stage,
    }
}

/// How far the copies are once the operations have run.
#[verifier::opaque]
pub open spec fn stage_after(ops: Seq<Op>) -> Stage
    decreases ops.len(),
{
    if ops.len() == 0 {
        Stage::InPlace
    } else {
        next_stage(stage_after(ops.drop_last()), ops.last())
    }
}

/// An operation may be issued when the copies are that far.
pub open spec fn may_follow(stage: Stage, op: Op) -> bool {
    match op {
        Op::Admit { layer, entries } => stage is InPlace,
        Op::Fork => stage is Chosen,
        Op::Promote { entries } => stage is Forked,
        Op::Join => stage is Copying,
        Op::GemvPairs { offset, index, x, x_rows, y, n_rows, k, n_pairs } => stage is InPlace,
        _ => true,
    }
}

/// Copies are issued once they are chosen, and experts are used once they are in
/// place.
#[verifier::opaque]
pub open spec fn orderly(ops: Seq<Op>) -> bool
    decreases ops.len(),
{
    ops.len() > 0 ==> orderly(ops.drop_last()) && may_follow(
        stage_after(ops.drop_last()),
        ops.last(),
    )
}

spec fn good(plan: Plan, ops: Seq<Op>, start: Set<Buf>) -> bool {
    flows(plan, ops, start) && orderly(ops)
}

proof fn step(plan: Plan, ops: Seq<Op>, start: Set<Buf>, op: Op)
    requires
        good(plan, ops, start),
        forall|i: int|
            0 <= i < reads(plan, op).len() ==> filled(
                plan,
                ops,
                start,
                #[trigger] reads(plan, op)[i],
            ),
        may_follow(stage_after(ops), op),
    ensures
        good(plan, ops.push(op), start),
        stage_after(ops.push(op)) == next_stage(stage_after(ops), op),
        forall|b: Buf| filled(plan, ops, start, b) ==> #[trigger] filled(
            plan,
            ops.push(op),
            start,
            b,
        ),
        forall|i: int|
            0 <= i < writes(plan, op).len() ==> filled(
                plan,
                ops.push(op),
                start,
                #[trigger] writes(plan, op)[i],
            ),
{
    reveal(filled);
    reveal(flows);
    reveal(orderly);
    reveal(stage_after);
    assert(ops.push(op).drop_last() =~= ops);
    assert forall|i: int| 0 <= i < writes(plan, op).len() implies filled(
        plan,
        ops.push(op),
        start,
        #[trigger] writes(plan, op)[i],
    ) by {
        assert(writes(plan, op).contains(writes(plan, op)[i]));
    }
}

/// What a step is given: the residual stream, where each sequence stands, constant
/// lists, and what sampling needs.
pub open spec fn given_inputs() -> Set<Buf> {
    set![
        Buf::Residual,
        Buf::Positions,
        Buf::Slots,
        Buf::Zeros,
        Buf::Identity,
        Buf::Temps,
        Buf::Seeds,
    ]
}

/// What a step with experts chosen on the device is given: also the sequence of
/// each pair.
pub open spec fn device_inputs() -> Set<Buf> {
    given_inputs().insert(Buf::PairIndex).insert(Buf::PairSeqs)
}

/// The buffers that stay filled between sections.
spec fn ready(plan: Plan, ops: Seq<Op>, start: Set<Buf>) -> bool {
    &&& good(plan, ops, start)
    &&& stage_after(ops) is InPlace
    &&& filled(plan, ops, start, Buf::Residual)
    &&& filled(plan, ops, start, Buf::Positions)
    &&& filled(plan, ops, start, Buf::Slots)
    &&& filled(plan, ops, start, Buf::Zeros)
    &&& filled(plan, ops, start, Buf::Identity)
    &&& filled(plan, ops, start, Buf::Temps)
    &&& filled(plan, ops, start, Buf::Seeds)
}

/// No part of a step is left out.
pub open spec fn complete(mode: Mode) -> bool {
    !mode.skip_attn && !mode.skip_dense && !mode.skip_moe && !mode.skip_lm_head
}

proof fn one(plan: Plan, ops: Seq<Op>, start: Set<Buf>, op: Op, out: Buf) -> (r: Seq<Op>)
    requires
        ready(plan, ops, start),
        forall|i: int|
            0 <= i < reads(plan, op).len() ==> filled(
                plan,
                ops,
                start,
                #[trigger] reads(plan, op)[i],
            ),
        may_follow(stage_after(ops), op),
        next_stage(stage_after(ops), op) is InPlace,
        writes(plan, op).len() == 0 || writes(plan, op)[0] == out,
    ensures
        r == ops.push(op),
        ready(plan, r, start),
        forall|b: Buf| filled(plan, ops, start, b) ==> #[trigger] filled(plan, r, start, b),
        writes(plan, op).len() > 0 ==> filled(plan, r, start, out),
{
    step(plan, ops, start, op);
    if writes(plan, op).len() > 0 {
        assert(filled(plan, ops.push(op), start, writes(plan, op)[0]));
    }
    ops.push(op)
}

/// A step starts with what it is given.
proof fn lemma_start(plan: Plan, start: Set<Buf>)
    requires
        forall|b: Buf| #[trigger] given_inputs().contains(b) ==> start.contains(b),
    ensures
        ready(plan, seq![], start),
        forall|b: Buf| start.contains(b) ==> #[trigger] filled(plan, seq![], start, b),
{
    reveal(filled);
    reveal(flows);
    reveal(orderly);
    reveal(stage_after);
    assert(given_inputs().contains(Buf::Residual));
    assert(given_inputs().contains(Buf::Positions));
    assert(given_inputs().contains(Buf::Slots));
    assert(given_inputs().contains(Buf::Zeros));
    assert(given_inputs().contains(Buf::Identity));
    assert(given_inputs().contains(Buf::Temps));
    assert(given_inputs().contains(Buf::Seeds));
}

proof fn lemma_attention(
    plan: Plan,
    before: Seq<Op>,
    start: Set<Buf>,
    l: int,
    n: usize,
    span: usize,
    mode: Mode,
) -> (r: Seq<Op>)
    requires
        plan.wf(),
        complete(mode),
        0 <= l < plan.layers@.len(),
        ready(plan, before, start),
    ensures
        r == before + plan.attention(l, n, span, mode),
        ready(plan, r, start),
        filled(plan, r, start, Buf::Attended),
        forall|b: Buf| filled(plan, before, start, b) ==> #[trigger] filled(plan, r, start, b),
{
    let s: LayerShape = plan.layers@[l];
    let layer = l as usize;
    let rows = Buf::Rows(s.qkv_rows);
    let value_at = (s.q_rows + s.kv_dim) as usize;
    let heads = plan.n_heads;
    let kv_heads = s.kv_heads;
    let r0 = if mode.live {
        one(plan, before, start, Op::StartLap, rows)
    } else {
        before
    };
    let r1 = one(
        plan,
        r0,
        start,
        Op::RmsNorm { src: Buf::Residual, norm: Norm::Attn(layer), dst: Buf::Normed, n },
        Buf::Normed,
    );
    let r2 = one(
        plan,
        r1,
        start,
        Op::Quantize { src: Buf::Normed, dst: Buf::Quants(HIDDEN), k: HIDDEN, n },
        Buf::Quants(HIDDEN),
    );
    let r3 = one(
        plan,
        r2,
        start,
        Op::Gemv {
            matrix: Matrix::Qkv(layer),
            x: Buf::Quants(HIDDEN),
            y: rows,
            n_rows: s.qkv_rows,
            k: HIDDEN,
            n,
        },
        rows,
    );
    let r4 = one(
        plan,
        r3,
        start,
        Op::NormHeads { layer, section: Section::Query, offset: 0, heads, n },
        rows,
    );
    let r5 = one(
        plan,
        r4,
        start,
        Op::NormHeads { layer, section: Section::Key, offset: s.q_rows, heads: kv_heads, n },
        rows,
    );
    let r6 = one(
        plan,
        r5,
        start,
        Op::NormHeads { layer, section: Section::Value, offset: value_at, heads: kv_heads, n },
        rows,
    );
    let r7 = one(plan, r6, start, Op::RopeHeads { layer, offset: 0, heads, n }, rows);
    let r8 = one(
        plan,
        r7,
        start,
        Op::RopeHeads { layer, offset: s.q_rows, heads: kv_heads, n },
        rows,
    );
    let r9 = one(
        plan,
        r8,
        start,
        Op::AppendKv { layer, pool: Buf::Keys(layer), offset: s.q_rows, n },
        Buf::Keys(layer),
    );
    let r10 = one(
        plan,
        r9,
        start,
        Op::AppendKv { layer, pool: Buf::Values(layer), offset: value_at, n },
        Buf::Values(layer),
    );
    let r11 = one(plan, r10, start, Op::GatherQueries { layer, n }, Buf::Queries);
    let r12 = one(plan, r11, start, Op::Attend { layer, span, n }, Buf::Attended);
    let r13 = if mode.live {
        one(plan, r12, start, Op::Lap(Phase::Attn), rows)
    } else {
        r12
    };
    assert(r13 =~= before + plan.attention(l, n, span, mode));
    r13
}

proof fn lemma_projection(
    plan: Plan,
    before: Seq<Op>,
    start: Set<Buf>,
    l: int,
    n: usize,
    mode: Mode,
) -> (r: Seq<Op>)
    requires
        plan.wf(),
        complete(mode),
        0 <= l < plan.layers@.len(),
        ready(plan, before, start),
        filled(plan, before, start, Buf::Attended),
    ensures
        r == before + plan.projection(l, n, mode),
        ready(plan, r, start),
        forall|b: Buf| filled(plan, before, start, b) ==> #[trigger] filled(plan, r, start, b),
{
    let s: LayerShape = plan.layers@[l];
    let layer = l as usize;
    let r1 = one(
        plan,
        before,
        start,
        Op::Quantize { src: Buf::Attended, dst: Buf::Quants(s.q_rows), k: s.q_rows, n },
        Buf::Quants(s.q_rows),
    );
    let r2 = one(
        plan,
        r1,
        start,
        Op::Gemv {
            matrix: Matrix::Out(layer),
            x: Buf::Quants(s.q_rows),
            y: Buf::Rows(HIDDEN),
            n_rows: HIDDEN,
            k: s.q_rows,
            n,
        },
        Buf::Rows(HIDDEN),
    );
    let r3 = one(
        plan,
        r2,
        start,
        Op::RmsNorm { src: Buf::Rows(HIDDEN), norm: Norm::PostAttn(layer), dst: Buf::Normed, n },
        Buf::Normed,
    );
    let r4 = one(
        plan,
        r3,
        start,
        Op::Add { dst: Buf::Residual, src: Buf::Normed, n },
        Buf::Residual,
    );
    let r5 = if mode.live {
        one(plan, r4, start, Op::Lap(Phase::OutGemv), Buf::Residual)
    } else {
        r4
    };
    assert(r5 =~= before + plan.projection(l, n, mode));
    r5
}

proof fn lemma_shared(
    plan: Plan,
    before: Seq<Op>,
    start: Set<Buf>,
    l: int,
    n: usize,
    mode: Mode,
) -> (r: Seq<Op>)
    requires
        plan.wf(),
        complete(mode),
        0 <= l < plan.layers@.len(),
        ready(plan, before, start),
    ensures
        r == before + plan.shared_branch(l, n, mode),
        ready(plan, r, start),
        filled(plan, r, start, Buf::RouterLogits),
        filled(plan, r, start, Buf::RoutedIn),
        filled(plan, r, start, Buf::SharedIn),
        filled(plan, r, start, Buf::Rows(HIDDEN)),
        forall|b: Buf| filled(plan, before, start, b) ==> #[trigger] filled(plan, r, start, b),
{
    let layer = l as usize;
    let width = (2 * plan.ffn) as usize;
    let r1 = one(
        plan,
        before,
        start,
        Op::RmsNorm { src: Buf::Residual, norm: Norm::Ffn(layer), dst: Buf::SharedIn, n },
        Buf::SharedIn,
    );
    let r2 = one(
        plan,
        r1,
        start,
        Op::RmsNorm { src: Buf::Residual, norm: Norm::PreRouted(layer), dst: Buf::RoutedIn, n },
        Buf::RoutedIn,
    );
    let r3 = one(
        plan,
        r2,
        start,
        Op::Quantize { src: Buf::SharedIn, dst: Buf::SharedQ8, k: HIDDEN, n },
        Buf::SharedQ8,
    );
    let r4 = one(
        plan,
        r3,
        start,
        Op::Gemv {
            matrix: Matrix::GateUp(layer),
            x: Buf::SharedQ8,
            y: Buf::Rows(width),
            n_rows: width,
            k: HIDDEN,
            n,
        },
        Buf::Rows(width),
    );
    let r5 = one(
        plan,
        r4,
        start,
        Op::Gelu { src: Buf::Rows(width), dst: Buf::SharedActs, inter: plan.ffn, n },
        Buf::SharedActs,
    );
    let r6 = one(
        plan,
        r5,
        start,
        Op::Quantize { src: Buf::SharedActs, dst: Buf::Quants(plan.ffn), k: plan.ffn, n },
        Buf::Quants(plan.ffn),
    );
    let r7 = one(
        plan,
        r6,
        start,
        Op::Gemv {
            matrix: Matrix::Down(layer),
            x: Buf::Quants(plan.ffn),
            y: Buf::Rows(HIDDEN),
            n_rows: HIDDEN,
            k: plan.ffn,
            n,
        },
        Buf::Rows(HIDDEN),
    );
    let r8 = one(
        plan,
        r7,
        start,
        Op::RmsNorm { src: Buf::Residual, norm: Norm::Plain, dst: Buf::Normed, n },
        Buf::Normed,
    );
    let r9 = one(plan, r8, start, Op::RouterGemv { layer, n }, Buf::RouterLogits);
    let r10 = if mode.live {
        one(plan, r9, start, Op::Lap(Phase::SharedMlp), Buf::Residual)
    } else {
        r9
    };
    assert(r10 =~= before + plan.shared_branch(l, n, mode));
    r10
}

proof fn lemma_front(
    plan: Plan,
    before: Seq<Op>,
    start: Set<Buf>,
    l: int,
    n: usize,
    span: usize,
    mode: Mode,
) -> (r: Seq<Op>)
    requires
        plan.wf(),
        complete(mode),
        0 <= l < plan.layers@.len(),
        ready(plan, before, start),
    ensures
        r == before + plan.front(l, n, span, mode),
        ready(plan, r, start),
        filled(plan, r, start, Buf::RouterLogits),
        filled(plan, r, start, Buf::RoutedIn),
        filled(plan, r, start, Buf::SharedIn),
        filled(plan, r, start, Buf::Rows(HIDDEN)),
        forall|b: Buf| filled(plan, before, start, b) ==> #[trigger] filled(plan, r, start, b),
{
    let a = lemma_attention(plan, before, start, l, n, span, mode);
    let b = lemma_projection(plan, a, start, l, n, mode);
    let c = lemma_shared(plan, b, start, l, n, mode);
    assert(c =~= before + plan.front(l, n, span, mode));
    c
}

proof fn lemma_pairs(
    plan: Plan,
    before: Seq<Op>,
    start: Set<Buf>,
    n_pairs: usize,
    n: usize,
) -> (r: Seq<Op>)
    requires
        ready(plan, before, start),
        filled(plan, before, start, Buf::PairBases),
        filled(plan, before, start, Buf::PairIndex),
        filled(plan, before, start, Buf::PairWeights),
        filled(plan, before, start, Buf::PairSeqs),
        filled(plan, before, start, Buf::RoutedQ8),
        filled(plan, before, start, Buf::RoutedOut),
    ensures
        r == before + plan.pair_stage(n_pairs, n),
        ready(plan, r, start),
        forall|b: Buf| filled(plan, before, start, b) ==> #[trigger] filled(plan, r, start, b),
{
    let width = (2 * plan.moe_inter) as usize;
    let r1 = one(
        plan,
        before,
        start,
        Op::GemvPairs {
            offset: 0,
            index: Buf::PairIndex,
            x: Buf::RoutedQ8,
            x_rows: n,
            y: Buf::PairGateUp,
            n_rows: width,
            k: HIDDEN,
            n_pairs,
        },
        Buf::PairGateUp,
    );
    let r2 = one(
        plan,
        r1,
        start,
        Op::Gelu { src: Buf::PairGateUp, dst: Buf::PairActs, inter: plan.moe_inter, n: n_pairs },
        Buf::PairActs,
    );
    let r3 = one(
        plan,
        r2,
        start,
        Op::Quantize { src: Buf::PairActs, dst: Buf::PairActsQ8, k: plan.moe_inter, n: n_pairs },
        Buf::PairActsQ8,
    );
    let r4 = one(
        plan,
        r3,
        start,
        Op::GemvPairs {
            offset: plan.gate_up_bytes,
            index: Buf::Identity,
            x: Buf::PairActsQ8,
            x_rows: n_pairs,
            y: Buf::PairDown,
            n_rows: HIDDEN,
            k: plan.moe_inter,
            n_pairs,
        },
        Buf::PairDown,
    );
    let r5 = one(plan, r4, start, Op::ReducePairs { n_pairs, n }, Buf::RoutedOut);
    assert(r5 =~= before + plan.pair_stage(n_pairs, n));
    r5
}

proof fn lemma_device(
    plan: Plan,
    before: Seq<Op>,
    start: Set<Buf>,
    l: int,
    n: usize,
    mode: Mode,
) -> (r: Seq<Op>)
    requires
        plan.wf(),
        complete(mode),
        ready(plan, before, start),
        filled(plan, before, start, Buf::RouterLogits),
        filled(plan, before, start, Buf::RoutedIn),
        filled(plan, before, start, Buf::Rows(HIDDEN)),
        filled(plan, before, start, Buf::PairIndex),
        filled(plan, before, start, Buf::PairSeqs),
    ensures
        r == before + plan.device_experts(l, n, mode),
        ready(plan, r, start),
        forall|b: Buf| filled(plan, before, start, b) ==> #[trigger] filled(plan, r, start, b),
{
    let layer = l as usize;
    let entries = (n * plan.topk) as usize;
    let r1 = one(
        plan,
        before,
        start,
        Op::Quantize { src: Buf::RoutedIn, dst: Buf::RoutedQ8, k: HIDDEN, n },
        Buf::RoutedQ8,
    );
    let choice = Op::TopK { layer, n };
    step(plan, r1, start, choice);
    let r2 = r1.push(choice);
    assert(writes(plan, choice)[0] == Buf::Choices && writes(plan, choice)[1] == Buf::PairWeights);
    let r3 = if mode.live {
        one(plan, r2, start, Op::Lap(Phase::Router), Buf::Residual)
    } else {
        r2
    };
    let r4 = if mode.live {
        one(plan, r3, start, Op::WaitPending, Buf::Residual)
    } else {
        r3
    };
    let admission = Op::Admit { layer, entries };
    step(plan, r4, start, admission);
    let r5 = r4.push(admission);
    assert(writes(plan, admission)[0] == Buf::PairBases && writes(plan, admission)[1]
        == Buf::PromoteFrom && writes(plan, admission)[2] == Buf::PromoteTo);
    step(plan, r5, start, Op::Fork);
    let r6 = r5.push(Op::Fork);
    let promote = Op::Promote { entries };
    step(plan, r6, start, promote);
    let r7 = r6.push(promote);
    step(plan, r7, start, Op::Join);
    let r8 = r7.push(Op::Join);
    let r9 = if mode.live {
        one(plan, r8, start, Op::Lap(Phase::Embed), Buf::Residual)
    } else {
        r8
    };
    let r10 = one(plan, r9, start, Op::ClearRouted { n }, Buf::RoutedOut);
    let r11 = lemma_pairs(plan, r10, start, entries, n);
    let r12 = one(plan, r11, start, Op::Combine { layer, n }, Buf::Residual);
    let r13 = if mode.live {
        one(plan, r12, start, Op::Lap(Phase::Moe), Buf::Residual)
    } else {
        r12
    };
    assert(r13 =~= before + plan.device_experts(l, n, mode));
    r13
}

proof fn lemma_layers(
    plan: Plan,
    start: Set<Buf>,
    l: int,
    n: usize,
    span: usize,
    mode: Mode,
)
    requires
        plan.wf(),
        complete(mode),
        0 <= l <= plan.layers@.len(),
        forall|b: Buf| #[trigger] given_inputs().contains(b) ==> start.contains(b),
        start.contains(Buf::PairIndex),
        start.contains(Buf::PairSeqs),
    ensures
        ready(plan, plan.layers_upto(l, n, span, mode), start),
        filled(plan, plan.layers_upto(l, n, span, mode), start, Buf::PairIndex),
        filled(plan, plan.layers_upto(l, n, span, mode), start, Buf::PairSeqs),
    decreases l,
{
    lemma_start(plan, start);
    if l > 0 {
        lemma_layers(plan, start, l - 1, n, span, mode);
        let a = lemma_front(
            plan,
            plan.layers_upto(l - 1, n, span, mode),
            start,
            l - 1,
            n,
            span,
            mode,
        );
        let b = lemma_device(plan, a, start, l - 1, n, mode);
        assert(b =~= plan.layers_upto(l, n, span, mode));
    }
}

proof fn lemma_tail(
    plan: Plan,
    before: Seq<Op>,
    start: Set<Buf>,
    n: usize,
    mode: Mode,
    sample: bool,
) -> (r: Seq<Op>)
    requires
        complete(mode),
        ready(plan, before, start),
    ensures
        r == before + plan.tail(n, mode) + plan.finish(n, sample),
        good(plan, r, start),
{
    let r1 = one(
        plan,
        before,
        start,
        Op::RmsNorm { src: Buf::Residual, norm: Norm::Final, dst: Buf::Normed, n },
        Buf::Normed,
    );
    let r2 = one(
        plan,
        r1,
        start,
        Op::Quantize { src: Buf::Normed, dst: Buf::SharedQ8, k: HIDDEN, n },
        Buf::SharedQ8,
    );
    let r3 = one(
        plan,
        r2,
        start,
        Op::Gemv {
            matrix: Matrix::LmHead,
            x: Buf::SharedQ8,
            y: Buf::Logits,
            n_rows: plan.vocab,
            k: HIDDEN,
            n,
        },
        Buf::Logits,
    );
    let r4 = if mode.live {
        one(plan, r3, start, Op::Lap(Phase::Combine), Buf::Residual)
    } else {
        r3
    };
    let last = if sample {
        Op::Sample { n }
    } else {
        Op::DownloadLogits { n }
    };
    step(plan, r4, start, last);
    assert(r4.push(last) =~= before + plan.tail(n, mode) + plan.finish(n, sample));
    r4.push(last)
}

/// A captured step reads nothing before it is written, and uses experts only once
/// they are in their slots.
pub proof fn stack_flows(plan: Plan, n: usize, mode: Mode)
    requires
        plan.wf(),
        complete(mode),
    ensures
        flows(plan, plan.stack(n, mode), device_inputs()),
        orderly(plan.stack(n, mode)),
{
    let start = device_inputs();
    lemma_layers(plan, start, plan.layers@.len() as int, n, plan.max_seq, mode);
    let a = plan.layers_upto(plan.layers@.len() as int, n, plan.max_seq, mode);
    let b = one(plan, a, start, Op::WaitPending, Buf::Residual);
    let c = lemma_tail(plan, b, start, n, mode, true);
    assert(c =~= plan.stack(n, mode));
}

/// So does a live step with experts chosen on the device.
pub proof fn live_step_flows(plan: Plan, n: usize, span: usize, mode: Mode, sample: bool)
    requires
        plan.wf(),
        complete(mode),
    ensures
        ({
            let ops = plan.layers_upto(plan.layers@.len() as int, n, span, mode) + plan.tail(
                n,
                mode,
            ) + plan.finish(n, sample);
            flows(plan, ops, device_inputs()) && orderly(ops)
        }),
{
    let start = device_inputs();
    lemma_layers(plan, start, plan.layers@.len() as int, n, span, mode);
    let a = plan.layers_upto(plan.layers@.len() as int, n, span, mode);
    let c = lemma_tail(plan, a, start, n, mode, sample);
}

proof fn lemma_host_pairs(
    plan: Plan,
    before: Seq<Op>,
    start: Set<Buf>,
    n: usize,
    n_pairs: usize,
) -> (r: Seq<Op>)
    requires
        ready(plan, before, start),
        filled(plan, before, start, Buf::RoutedQ8),
        filled(plan, before, start, Buf::RoutedOut),
    ensures
        r == before + seq![Op::UploadPairs { n_pairs }] + plan.pair_stage(n_pairs, n),
        ready(plan, r, start),
        forall|b: Buf| filled(plan, before, start, b) ==> #[trigger] filled(plan, r, start, b),
{
    let upload = Op::UploadPairs { n_pairs };
    step(plan, before, start, upload);
    let u = before.push(upload);
    assert(writes(plan, upload)[0] == Buf::PairBases && writes(plan, upload)[1] == Buf::PairIndex
        && writes(plan, upload)[2] == Buf::PairWeights && writes(plan, upload)[3]
        == Buf::PairSeqs);
    let r = lemma_pairs(plan, u, start, n_pairs, n);
    assert(r =~= before + seq![upload] + plan.pair_stage(n_pairs, n));
    r
}

proof fn lemma_host(
    plan: Plan,
    before: Seq<Op>,
    start: Set<Buf>,
    l: int,
    n: usize,
    n_pairs: usize,
    any_host: bool,
) -> (r: Seq<Op>)
    requires
        ready(plan, before, start),
        filled(plan, before, start, Buf::RoutedIn),
        filled(plan, before, start, Buf::SharedIn),
        filled(plan, before, start, Buf::Rows(HIDDEN)),
    ensures
        r == before + plan.host_experts(l, n, n_pairs, any_host),
        ready(plan, r, start),
        forall|b: Buf| filled(plan, before, start, b) ==> #[trigger] filled(plan, r, start, b),
{
    let layer = l as usize;
    let r2 = one(plan, before, start, Op::Lap(Phase::Router), Buf::Residual);
    let r3 = one(
        plan,
        r2,
        start,
        Op::Quantize { src: Buf::RoutedIn, dst: Buf::RoutedQ8, k: HIDDEN, n },
        Buf::RoutedQ8,
    );
    let r4 = one(plan, r3, start, Op::WaitPending, Buf::Residual);
    let r5 = one(plan, r4, start, Op::FetchExperts, Buf::Residual);
    let r6 = one(plan, r5, start, Op::ClearRouted { n }, Buf::RoutedOut);
    let r7 = if n_pairs > 0 {
        lemma_host_pairs(plan, r6, start, n, n_pairs)
    } else {
        r6
    };
    let r8 = if any_host {
        let h = one(plan, r7, start, Op::HostExperts { n }, Buf::SharedIn);
        one(
            plan,
            h,
            start,
            Op::Add { dst: Buf::RoutedOut, src: Buf::SharedIn, n },
            Buf::RoutedOut,
        )
    } else {
        r7
    };
    let r9 = one(plan, r8, start, Op::Combine { layer, n }, Buf::Residual);
    let r10 = one(plan, r9, start, Op::Lap(Phase::Moe), Buf::Residual);
    assert(r10 =~= before + plan.host_experts(l, n, n_pairs, any_host));
    r10
}

/// The first `l` layers of a step with experts chosen on the host. For each layer,
/// `work` gives the number of pairs for the device, and whether there are some for
/// the host.
pub open spec fn host_layers(
    plan: Plan,
    l: int,
    n: usize,
    span: usize,
    mode: Mode,
    work: Seq<(usize, bool)>,
) -> Seq<Op>
    decreases l,
{
    if l <= 0 {
        seq![]
    } else {
        host_layers(plan, l - 1, n, span, mode, work) + plan.front(l - 1, n, span, mode)
            + plan.host_choice(n) + plan.host_experts(l - 1, n, work[l - 1].0, work[l - 1].1)
    }
}

proof fn lemma_host_layers(
    plan: Plan,
    l: int,
    n: usize,
    span: usize,
    mode: Mode,
    work: Seq<(usize, bool)>,
)
    requires
        plan.wf(),
        complete(mode),
        0 <= l <= plan.layers@.len(),
    ensures
        ready(plan, host_layers(plan, l, n, span, mode, work), given_inputs()),
    decreases l,
{
    let start = given_inputs();
    lemma_start(plan, start);
    if l > 0 {
        lemma_host_layers(plan, l - 1, n, span, mode, work);
        let before = host_layers(plan, l - 1, n, span, mode, work);
        let a = lemma_front(plan, before, start, l - 1, n, span, mode);
        let b = one(plan, a, start, Op::DownloadRouter { n }, Buf::Residual);
        let c = lemma_host(plan, b, start, l - 1, n, work[l - 1].0, work[l - 1].1);
        assert(c =~= host_layers(plan, l, n, span, mode, work));
    }
}

/// A live step with experts chosen on the host reads nothing before it is written,
/// whatever the host chooses.
pub proof fn host_step_flows(
    plan: Plan,
    n: usize,
    span: usize,
    mode: Mode,
    work: Seq<(usize, bool)>,
    sample: bool,
)
    requires
        plan.wf(),
        complete(mode),
    ensures
        flows(
            plan,
            host_layers(plan, plan.layers@.len() as int, n, span, mode, work) + plan.tail(n, mode)
                + plan.finish(n, sample),
            given_inputs(),
        ),
{
    lemma_host_layers(plan, plan.layers@.len() as int, n, span, mode, work);
    let a = host_layers(plan, plan.layers@.len() as int, n, span, mode, work);
    let b = lemma_tail(plan, a, given_inputs(), n, mode, sample);
}

/// Copies that were left running are waited for before more are started.
pub open spec fn awaited(ops: Seq<Op>) -> bool {
    forall|i: int|
        0 <= i < ops.len() && (#[trigger] ops[i]) is FetchExperts ==> i > 0
            && ops[i - 1] is WaitPending
}

/// No copies are started.
spec fn no_fetch(ops: Seq<Op>) -> bool {
    forall|i: int| 0 <= i < ops.len() ==> !((#[trigger] ops[i]) is FetchExperts)
}

proof fn lemma_awaited_append(a: Seq<Op>, b: Seq<Op>)
    requires
        awaited(a),
        awaited(b),
    ensures
        awaited(a + b),
{
    assert forall|i: int| 0 <= i < (a + b).len() && (#[trigger] (a + b)[i]) is FetchExperts implies i
        > 0 && (a + b)[i - 1] is WaitPending by {
        if i >= a.len() {
            assert(b[i - a.len()] is FetchExperts);
        } else {
            assert(a[i] is FetchExperts);
        }
    }
}

proof fn lemma_host_awaited(plan: Plan, l: int, n: usize, n_pairs: usize, any_host: bool)
    ensures
        awaited(plan.host_experts(l, n, n_pairs, any_host)),
{
    let ops = plan.host_experts(l, n, n_pairs, any_host);
    let pairs = if n_pairs > 0 {
        seq![Op::UploadPairs { n_pairs }] + plan.pair_stage(n_pairs, n)
    } else {
        seq![]
    };
    assert(no_fetch(pairs));
    assert forall|i: int| 0 <= i < ops.len() && (#[trigger] ops[i]) is FetchExperts implies i > 0
        && ops[i - 1] is WaitPending by {
        assert(ops[2] is WaitPending);
        if 5 <= i < 5 + pairs.len() {
            assert(ops[i] == pairs[i - 5]);
        }
    }
}

proof fn lemma_front_awaited(plan: Plan, l: int, n: usize, span: usize, mode: Mode)
    ensures
        awaited(plan.front(l, n, span, mode)),
        awaited(plan.host_choice(n)),
        awaited(plan.tail(n, mode)),
{
    assert(no_fetch(plan.attention(l, n, span, mode)));
    assert(no_fetch(plan.projection(l, n, mode)));
    assert(no_fetch(plan.shared_branch(l, n, mode)));
    assert(no_fetch(plan.front(l, n, span, mode)));
    assert(no_fetch(plan.host_choice(n)));
    assert(no_fetch(plan.tail(n, mode)));
}

/// A step with experts chosen on the host waits for the copies of one layer before it
/// starts those of the next.
pub proof fn copies_are_awaited(
    plan: Plan,
    l: int,
    n: usize,
    span: usize,
    mode: Mode,
    work: Seq<(usize, bool)>,
)
    requires
        0 <= l,
    ensures
        awaited(host_layers(plan, l, n, span, mode, work)),
    decreases l,
{
    if l > 0 {
        copies_are_awaited(plan, l - 1, n, span, mode, work);
        lemma_front_awaited(plan, l - 1, n, span, mode);
        lemma_host_awaited(plan, l - 1, n, work[l - 1].0, work[l - 1].1);
        let a = host_layers(plan, l - 1, n, span, mode, work);
        let b = plan.front(l - 1, n, span, mode);
        lemma_awaited_append(a, b);
        lemma_awaited_append(a + b, plan.host_choice(n));
        lemma_awaited_append(
            a + b + plan.host_choice(n),
            plan.host_experts(l - 1, n, work[l - 1].0, work[l - 1].1),
        );
    }
}

} // verus!
