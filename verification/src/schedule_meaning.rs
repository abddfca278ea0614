//! What a decode step computes. The operations are run on contents of the buffers, with
//! any kernels in place of the device's, and the outcome is that of the model: attention
//! to what was rotated and kept, the shared branch, the routed experts, layer by layer,
//! and at the end the scores and the next token of each sequence.

use crate::config::HIDDEN;
use crate::plan::{Buf, Plan};
use crate::schedule::{Matrix, Mode, Norm, Op, Phase, Section};
use crate::schedule_flow::complete;
use vstd::prelude::*;

verus! {

/// What the kernels of a device compute, of rows of numbers.
pub ghost struct Device {
    /// A row, normed with weights.
    pub normed: spec_fn(Norm, Seq<int>) -> Seq<int>,
    /// The first elements of a row, quantized.
    pub quantized: spec_fn(usize, Seq<int>) -> Seq<int>,
    /// A row of a matrix times so many elements of a quantized row.
    pub dot: spec_fn(Matrix, int, usize, Seq<int>) -> int,
    /// An element of a layer's queries, keys or values, once their heads are normed.
    pub head_normed: spec_fn(int, Section, Seq<int>, int) -> int,
    /// An element of heads, once they are rotated to the position of a sequence.
    pub rotated: spec_fn(int, int, Seq<int>, int) -> int,
    /// The attention of a sequence with its queries, keys and values.
    pub attended: spec_fn(int, usize, int, Seq<int>, Seq<int>, Seq<int>) -> Seq<int>,
    /// The sum of two rows.
    pub sum: spec_fn(Seq<int>, Seq<int>) -> Seq<int>,
    /// The activation of the first so many elements times the next so many.
    pub gated: spec_fn(usize, Seq<int>) -> Seq<int>,
    /// The scores of a layer's experts.
    pub scores: spec_fn(int, Seq<int>) -> Seq<int>,
    /// The expert of each rank by its score.
    pub chosen: spec_fn(int, Seq<int>, int) -> int,
    /// The weight of that expert.
    pub weight: spec_fn(int, Seq<int>, int) -> int,
    /// Where the weights of a layer's expert are.
    pub address: spec_fn(int, int) -> int,
    /// A row of the matrix at an offset from an address, times so many elements of a
    /// quantized row.
    pub expert_dot: spec_fn(int, usize, int, usize, Seq<int>) -> int,
    /// A row of zeros.
    pub zeros: Seq<int>,
    /// A row, and another one times a weight.
    pub weighted_sum: spec_fn(Seq<int>, int, Seq<int>) -> Seq<int>,
    /// The residual stream, with what both branches of a layer gave.
    pub combined: spec_fn(int, Seq<int>, Seq<int>, Seq<int>) -> Seq<int>,
    /// The next token of a sequence, by its scores.
    pub token: spec_fn(int, Seq<int>) -> int,
    /// What the host brings to the device, for each pair.
    pub uploaded: spec_fn(Buf, int) -> int,
    /// What the host computed for each sequence.
    pub on_host: spec_fn(int) -> Seq<int>,
}

/// The contents of the buffers, row by row. Of the keys and values these are what each
/// sequence has so far.
pub type Contents = spec_fn(Buf, int) -> Seq<int>;

/// The contents with the first `n` rows of a buffer replaced.
pub open spec fn with_rows(
    m: Contents,
    buf: Buf,
    n: int,
    row: spec_fn(int) -> Seq<int>,
) -> Contents {
    |b: Buf, r: int|
        if b == buf && 0 <= r < n {
            row(r)
        } else {
            m(b, r)
        }
}

/// The elements from an offset on are replaced.
pub open spec fn with_part(row: Seq<int>, offset: int, len: int, part: spec_fn(int) -> int) -> Seq<
    int,
> {
    Seq::new(
        row.len(),
        |i: int|
            if offset <= i < offset + len {
                part(i - offset)
            } else {
                row[i]
            },
    )
}

/// The first `p` pairs that are of sequence `r`, weighted and added up.
pub open spec fn pairs_sum(d: Device, m: Contents, start: Seq<int>, p: int, r: int) -> Seq<int>
    decreases p,
{
    if p <= 0 {
        start
    } else {
        let before = pairs_sum(d, m, start, p - 1, r);
        if m(Buf::PairSeqs, p - 1)[0] == r {
            (d.weighted_sum)(before, m(Buf::PairWeights, p - 1)[0], m(Buf::PairDown, p - 1))
        } else {
            before
        }
    }
}

/// What an operation makes of the contents of the buffers.
pub open spec fn performed(d: Device, plan: Plan, op: Op, m: Contents) -> Contents {
    match op {
        Op::RmsNorm { src, norm, dst, n } => with_rows(
            m,
            dst,
            n as int,
            |r: int| (d.normed)(norm, m(src, r)),
        ),
        Op::Quantize { src, dst, k, n } => with_rows(
            m,
            dst,
            n as int,
            |r: int| (d.quantized)(k, m(src, r)),
        ),
        Op::Gemv { matrix, x, y, n_rows, k, n } => with_rows(
            m,
            y,
            n as int,
            |r: int| Seq::new(n_rows as nat, |i: int| (d.dot)(matrix, i, k, m(x, r))),
        ),
        Op::NormHeads { layer, section, offset, heads, n } => {
            let s = plan.layers@[layer as int];
            let len = heads * s.head_dim;
            with_rows(
                m,
                Buf::Rows(s.qkv_rows),
                n as int,
                |r: int|
                    {
                        let row = m(Buf::Rows(s.qkv_rows), r);
                        let part = row.subrange(offset as int, offset + len);
                        with_part(
                            row,
                            offset as int,
                            len,
                            |i: int| (d.head_normed)(layer as int, section, part, i),
                        )
                    },
            )
        },
        Op::RopeHeads { layer, offset, heads, n } => {
            let s = plan.layers@[layer as int];
            let len = heads * s.head_dim;
            with_rows(
                m,
                Buf::Rows(s.qkv_rows),
                n as int,
                |r: int|
                    {
                        let row = m(Buf::Rows(s.qkv_rows), r);
                        let part = row.subrange(offset as int, offset + len);
                        with_part(
                            row,
                            offset as int,
                            len,
                            |i: int| (d.rotated)(layer as int, r, part, i),
                        )
                    },
            )
        },
        Op::AppendKv { layer, pool, offset, n } => {
            let s = plan.layers@[layer as int];
            with_rows(
                m,
                pool,
                n as int,
                |r: int|
                    m(pool, r) + m(Buf::Rows(s.qkv_rows), r).subrange(
                        offset as int,
                        offset + s.kv_dim,
                    ),
            )
        },
        Op::GatherQueries { layer, n } => {
            let s = plan.layers@[layer as int];
            with_rows(
                m,
                Buf::Queries,
                n as int,
                |r: int| m(Buf::Rows(s.qkv_rows), r).subrange(0, s.q_rows as int),
            )
        },
        Op::Attend { layer, span, n } => with_rows(
            m,
            Buf::Attended,
            n as int,
            |r: int|
                (d.attended)(
                    layer as int,
                    span,
                    r,
                    m(Buf::Queries, r),
                    m(Buf::Keys(layer), r),
                    m(Buf::Values(layer), r),
                ),
        ),
        Op::Add { dst, src, n } => with_rows(
            m,
            dst,
            n as int,
            |r: int| (d.sum)(m(dst, r), m(src, r)),
        ),
        Op::Gelu { src, dst, inter, n } => with_rows(
            m,
            dst,
            n as int,
            |r: int| (d.gated)(inter, m(src, r)),
        ),
        Op::RouterGemv { layer, n } => with_rows(
            m,
            Buf::RouterLogits,
            n as int,
            |r: int| (d.scores)(layer as int, m(Buf::Normed, r)),
        ),
        Op::TopK { layer, n } => with_rows(
            with_rows(
                m,
                Buf::Choices,
                n * plan.topk,
                |p: int|
                    seq![
                        (d.chosen)(
                            layer as int,
                            m(Buf::RouterLogits, p / plan.topk as int),
                            p % plan.topk as int,
                        ),
                    ],
            ),
            Buf::PairWeights,
            n * plan.topk,
            |p: int|
                seq![
                    (d.weight)(
                        layer as int,
                        m(Buf::RouterLogits, p / plan.topk as int),
                        p % plan.topk as int,
                    ),
                ],
        ),
        Op::Admit { layer, entries } => with_rows(
            m,
            Buf::PairBases,
            entries as int,
            |p: int| seq![(d.address)(layer as int, m(Buf::Choices, p)[0])],
        ),
        Op::ClearRouted { n } => with_rows(m, Buf::RoutedOut, n as int, |r: int| d.zeros),
        Op::GemvPairs { offset, index, x, x_rows, y, n_rows, k, n_pairs } => with_rows(
            m,
            y,
            n_pairs as int,
            |p: int|
                if 0 <= m(index, p)[0] < x_rows {
                    Seq::new(
                        n_rows as nat,
                        |i: int|
                            (d.expert_dot)(
                                m(Buf::PairBases, p)[0],
                                offset,
                                i,
                                k,
                                m(x, m(index, p)[0]),
                            ),
                    )
                } else {
                    seq![]
                },
        ),
        Op::ReducePairs { n_pairs, n } => with_rows(
            m,
            Buf::RoutedOut,
            n as int,
            |r: int| pairs_sum(d, m, m(Buf::RoutedOut, r), n_pairs as int, r),
        ),
        Op::Combine { layer, n } => with_rows(
            m,
            Buf::Residual,
            n as int,
            |r: int|
                (d.combined)(
                    layer as int,
                    m(Buf::Residual, r),
                    m(Buf::Rows(HIDDEN), r),
                    m(Buf::RoutedOut, r),
                ),
        ),
        Op::Sample { n } => with_rows(
            m,
            Buf::Tokens,
            n as int,
            |r: int| seq![(d.token)(r, m(Buf::Logits, r))],
        ),
        Op::UploadPairs { n_pairs } => |b: Buf, p: int|
            if (b == Buf::PairBases || b == Buf::PairIndex || b == Buf::PairWeights || b
                == Buf::PairSeqs) && 0 <= p < n_pairs {
                seq![(d.uploaded)(b, p)]
            } else {
                m(b, p)
            },
        Op::HostExperts { n } => with_rows(m, Buf::SharedIn, n as int, |r: int| (d.on_host)(r)),
        Op::StartLap
        | Op::Lap(_)
        | Op::WaitPending
        | Op::Fork
        | Op::Join
        | Op::Promote { .. }
        | Op::FetchExperts
        | Op::DownloadRouter { .. }
        | Op::DownloadLogits { .. } => m,
    }
}

/// What operations make of the contents of the buffers, one after the other.
#[verifier::opaque]
pub open spec fn run(d: Device, plan: Plan, ops: Seq<Op>, m: Contents) -> Contents
    decreases ops.len(),
{
    if ops.len() == 0 {
        m
    } else {
        performed(d, plan, ops.last(), run(d, plan, ops.drop_last(), m))
    }
}

/// A matrix of so many rows times so many elements of a quantized row.
pub open spec fn product(d: Device, matrix: Matrix, n_rows: usize, k: usize, x: Seq<int>) -> Seq<
    int,
> {
    Seq::new(n_rows as nat, |i: int| (d.dot)(matrix, i, k, x))
}

/// Queries, keys and values of a layer, one behind the other.
pub open spec fn projected(d: Device, plan: Plan, l: int, x: Seq<int>) -> Seq<int> {
    product(
        d,
        Matrix::Qkv(l as usize),
        plan.layers@[l].qkv_rows,
        HIDDEN,
        (d.quantized)(HIDDEN, (d.normed)(Norm::Attn(l as usize), x)),
    )
}

/// All heads of a part, normed.
pub open spec fn all_normed(d: Device, l: int, section: Section, part: Seq<int>) -> Seq<int> {
    Seq::new(part.len(), |i: int| (d.head_normed)(l, section, part, i))
}

/// All heads of a part, rotated to the position of sequence `r`.
pub open spec fn all_rotated(d: Device, l: int, r: int, part: Seq<int>) -> Seq<int> {
    Seq::new(part.len(), |i: int| (d.rotated)(l, r, part, i))
}

/// The queries of a sequence in a layer: the first rows, normed and then rotated.
pub open spec fn queries(d: Device, plan: Plan, l: int, r: int, x: Seq<int>) -> Seq<int> {
    let s = plan.layers@[l];
    all_rotated(
        d,
        l,
        r,
        all_normed(d, l, Section::Query, projected(d, plan, l, x).subrange(0, s.q_rows as int)),
    )
}

/// The keys of a sequence in a layer: the rows behind the queries, normed and then
/// rotated.
pub open spec fn keys(d: Device, plan: Plan, l: int, r: int, x: Seq<int>) -> Seq<int> {
    let s = plan.layers@[l];
    all_rotated(
        d,
        l,
        r,
        all_normed(
            d,
            l,
            Section::Key,
            projected(d, plan, l, x).subrange(s.q_rows as int, s.q_rows + s.kv_dim),
        ),
    )
}

/// The values of a sequence in a layer: the last rows, normed and not rotated.
pub open spec fn values(d: Device, plan: Plan, l: int, x: Seq<int>) -> Seq<int> {
    let s = plan.layers@[l];
    all_normed(
        d,
        l,
        Section::Value,
        projected(d, plan, l, x).subrange(s.q_rows + s.kv_dim, s.q_rows + 2 * s.kv_dim),
    )
}

/// The residual stream behind the attention of a layer.
pub open spec fn behind_attention(
    d: Device,
    plan: Plan,
    l: int,
    span: usize,
    r: int,
    x: Seq<int>,
    kept_keys: Seq<int>,
    kept_values: Seq<int>,
) -> Seq<int> {
    let s = plan.layers@[l];
    let attended = (d.attended)(
        l,
        span,
        r,
        queries(d, plan, l, r, x),
        kept_keys + keys(d, plan, l, r, x),
        kept_values + values(d, plan, l, x),
    );
    let out = product(
        d,
        Matrix::Out(l as usize),
        HIDDEN,
        s.q_rows,
        (d.quantized)(s.q_rows, attended),
    );
    (d.sum)(x, (d.normed)(Norm::PostAttn(l as usize), out))
}

/// The shared branch of a layer.
pub open spec fn shared(d: Device, plan: Plan, l: int, x: Seq<int>) -> Seq<int> {
    let width = (2 * plan.ffn) as usize;
    let rows = product(
        d,
        Matrix::GateUp(l as usize),
        width,
        HIDDEN,
        (d.quantized)(HIDDEN, (d.normed)(Norm::Ffn(l as usize), x)),
    );
    product(
        d,
        Matrix::Down(l as usize),
        HIDDEN,
        plan.ffn,
        (d.quantized)(plan.ffn, (d.gated)(plan.ffn, rows)),
    )
}

/// The expert at an address: its gate-and-up matrix, the activation, and its down
/// matrix, which is behind the other one.
pub open spec fn expert(d: Device, plan: Plan, at: int, x: Seq<int>) -> Seq<int> {
    let inter = plan.moe_inter;
    let rows = Seq::new((2 * inter) as nat, |i: int| (d.expert_dot)(at, 0, i, HIDDEN, x));
    let acts = (d.quantized)(inter, (d.gated)(inter, rows));
    Seq::new(HIDDEN as nat, |i: int| (d.expert_dot)(at, plan.gate_up_bytes, i, inter, acts))
}

/// The input of the routed experts of a layer, quantized.
pub open spec fn routed_in(d: Device, l: int, x: Seq<int>) -> Seq<int> {
    (d.quantized)(HIDDEN, (d.normed)(Norm::PreRouted(l as usize), x))
}

/// The scores of the experts of a layer.
pub open spec fn router_scores(d: Device, l: int, x: Seq<int>) -> Seq<int> {
    (d.scores)(l, (d.normed)(Norm::Plain, x))
}

/// The first `j` chosen experts of a layer, weighted and added up.
pub open spec fn routed(d: Device, plan: Plan, l: int, x: Seq<int>, j: int) -> Seq<int>
    decreases j,
{
    if j <= 0 {
        d.zeros
    } else {
        let scores = router_scores(d, l, x);
        let at = (d.address)(l, (d.chosen)(l, scores, j - 1));
        (d.weighted_sum)(
            routed(d, plan, l, x, j - 1),
            (d.weight)(l, scores, j - 1),
            expert(d, plan, at, routed_in(d, l, x)),
        )
    }
}

/// The residual stream behind a layer with experts chosen on the device.
pub open spec fn behind_layer(
    d: Device,
    plan: Plan,
    l: int,
    span: usize,
    r: int,
    x: Seq<int>,
    kept_keys: Seq<int>,
    kept_values: Seq<int>,
) -> Seq<int> {
    let y = behind_attention(d, plan, l, span, r, x, kept_keys, kept_values);
    (d.combined)(l, y, shared(d, plan, l, y), routed(d, plan, l, y, plan.topk as int))
}

/// The residual stream of sequence `r` behind the first `l` layers, each of which reads
/// what the one before left.
pub open spec fn stream_behind(
    d: Device,
    plan: Plan,
    m: Contents,
    l: int,
    span: usize,
    r: int,
) -> Seq<int>
    decreases l,
{
    if l <= 0 {
        m(Buf::Residual, r)
    } else {
        behind_layer(
            d,
            plan,
            l - 1,
            span,
            r,
            stream_behind(d, plan, m, l - 1, span, r),
            m(Buf::Keys((l - 1) as usize), r),
            m(Buf::Values((l - 1) as usize), r),
        )
    }
}

/// The scores of the tokens, out of the residual stream behind the last layer.
pub open spec fn token_scores(d: Device, plan: Plan, x: Seq<int>) -> Seq<int> {
    product(
        d,
        Matrix::LmHead,
        plan.vocab,
        HIDDEN,
        (d.quantized)(HIDDEN, (d.normed)(Norm::Final, x)),
    )
}

proof fn push_op(d: Device, plan: Plan, ops: Seq<Op>, op: Op, m: Contents)
    ensures
        run(d, plan, ops.push(op), m) == performed(d, plan, op, run(d, plan, ops, m)),
{
    reveal(run);
    assert(ops.push(op).drop_last() =~= ops);
}

proof fn lemma_run_nothing(d: Device, plan: Plan, m: Contents)
    ensures
        run(d, plan, seq![], m) == m,
{
    reveal(run);
}

proof fn lemma_run_parts(d: Device, plan: Plan, a: Seq<Op>, b: Seq<Op>, m: Contents)
    ensures
        run(d, plan, a + b, m) == run(d, plan, b, run(d, plan, a, m)),
    decreases b.len(),
{
    reveal(run);
    if b.len() == 0 {
        assert(a + b =~= a);
    } else {
        assert((a + b).drop_last() =~= a + b.drop_last());
        lemma_run_parts(d, plan, a, b.drop_last(), m);
    }
}

proof fn lemma_norm_heads(
    d: Device,
    plan: Plan,
    m: Contents,
    op: Op,
    r: int,
    a: Seq<int>,
    b: Seq<int>,
    c: Seq<int>,
)
    requires
        op is NormHeads,
        0 <= r < op->NormHeads_n,
        m(Buf::Rows(plan.layers@[op->NormHeads_layer as int].qkv_rows), r) == a + b + c,
        op->NormHeads_offset == a.len(),
        op->NormHeads_heads * plan.layers@[op->NormHeads_layer as int].head_dim == b.len(),
    ensures
        performed(d, plan, op, m)(
            Buf::Rows(plan.layers@[op->NormHeads_layer as int].qkv_rows),
            r,
        ) == a + all_normed(d, op->NormHeads_layer as int, op->NormHeads_section, b) + c,
{
    let rows = Buf::Rows(plan.layers@[op->NormHeads_layer as int].qkv_rows);
    let row = a + b + c;
    assert(row.subrange(a.len() as int, (a.len() + b.len()) as int) =~= b);
    assert(performed(d, plan, op, m)(rows, r) =~= a + all_normed(
        d,
        op->NormHeads_layer as int,
        op->NormHeads_section,
        b,
    ) + c);
}

proof fn lemma_rope_heads(
    d: Device,
    plan: Plan,
    m: Contents,
    op: Op,
    r: int,
    a: Seq<int>,
    b: Seq<int>,
    c: Seq<int>,
)
    requires
        op is RopeHeads,
        0 <= r < op->RopeHeads_n,
        m(Buf::Rows(plan.layers@[op->RopeHeads_layer as int].qkv_rows), r) == a + b + c,
        op->RopeHeads_offset == a.len(),
        op->RopeHeads_heads * plan.layers@[op->RopeHeads_layer as int].head_dim == b.len(),
    ensures
        performed(d, plan, op, m)(
            Buf::Rows(plan.layers@[op->RopeHeads_layer as int].qkv_rows),
            r,
        ) == a + all_rotated(d, op->RopeHeads_layer as int, r, b) + c,
{
    let rows = Buf::Rows(plan.layers@[op->RopeHeads_layer as int].qkv_rows);
    let row = a + b + c;
    assert(row.subrange(a.len() as int, (a.len() + b.len()) as int) =~= b);
    assert(performed(d, plan, op, m)(rows, r) =~= a + all_rotated(
        d,
        op->RopeHeads_layer as int,
        r,
        b,
    ) + c);
}

/// What the attention of a layer computes: it attends with the normed and rotated
/// queries to what is kept and the new keys and values. The keys are kept normed and
/// rotated, the values normed and not rotated.
pub proof fn attention_computes(
    d: Device,
    plan: Plan,
    m: Contents,
    l: int,
    n: usize,
    span: usize,
    mode: Mode,
    r: int,
)
    requires
        plan.wf(),
        complete(mode),
        0 <= l < plan.layers@.len(),
    ensures
        ({
            let after = run(d, plan, plan.attention(l, n, span, mode), m);
            let x = m(Buf::Residual, r);
            let kept_keys = Buf::Keys(l as usize);
            let kept_values = Buf::Values(l as usize);
            &&& 0 <= r < n ==> {
                &&& after(kept_keys, r) == m(kept_keys, r) + keys(d, plan, l, r, x)
                &&& after(kept_values, r) == m(kept_values, r) + values(d, plan, l, x)
                &&& after(Buf::Attended, r) == (d.attended)(
                    l,
                    span,
                    r,
                    queries(d, plan, l, r, x),
                    after(kept_keys, r),
                    after(kept_values, r),
                )
            }
            &&& forall|b: Buf|
                !(0 <= r < n) || !(b == Buf::Normed || b == Buf::Quants(HIDDEN) || b == Buf::Rows(
                    plan.layers@[l].qkv_rows,
                ) || b == kept_keys || b == kept_values || b == Buf::Queries || b == Buf::Attended)
                    ==> #[trigger] after(b, r) == m(b, r)
        }),
{
    let s = plan.layers@[l];
    let layer = l as usize;
    assert(layer as int == l);
    let value_at = (s.q_rows + s.kv_dim) as usize;
    let heads = plan.n_heads;
    let kv_heads = s.kv_heads;
    let rows = Buf::Rows(s.qkv_rows);
    let x = m(Buf::Residual, r);
    let (kk, vv) = (Buf::Keys(layer), Buf::Values(layer));
    lemma_run_nothing(d, plan, m);
    let none = Seq::<Op>::empty();
    let c0 = if mode.live {
        push_op(d, plan, none, Op::StartLap, m);
        none.push(Op::StartLap)
    } else {
        none
    };
    assert(run(d, plan, c0, m) == m);
    let o1 = Op::RmsNorm { src: Buf::Residual, norm: Norm::Attn(layer), dst: Buf::Normed, n };
    push_op(d, plan, c0, o1, m);
    let c1 = c0.push(o1);
    let m1 = run(d, plan, c1, m);
    let o2 = Op::Quantize { src: Buf::Normed, dst: Buf::Quants(HIDDEN), k: HIDDEN, n };
    push_op(d, plan, c1, o2, m);
    let c2 = c1.push(o2);
    let m2 = run(d, plan, c2, m);
    let o3 = Op::Gemv {
        matrix: Matrix::Qkv(layer),
        x: Buf::Quants(HIDDEN),
        y: rows,
        n_rows: s.qkv_rows,
        k: HIDDEN,
        n,
    };
    push_op(d, plan, c2, o3, m);
    let c3 = c2.push(o3);
    let m3 = run(d, plan, c3, m);
    let o4 = Op::NormHeads { layer, section: Section::Query, offset: 0, heads, n };
    push_op(d, plan, c3, o4, m);
    let c4 = c3.push(o4);
    let m4 = run(d, plan, c4, m);
    let o5 = Op::NormHeads { layer, section: Section::Key, offset: s.q_rows, heads: kv_heads, n };
    push_op(d, plan, c4, o5, m);
    let c5 = c4.push(o5);
    let m5 = run(d, plan, c5, m);
    let o6 = Op::NormHeads {
        layer,
        section: Section::Value,
        offset: value_at,
        heads: kv_heads,
        n,
    };
    push_op(d, plan, c5, o6, m);
    let c6 = c5.push(o6);
    let m6 = run(d, plan, c6, m);
    let o7 = Op::RopeHeads { layer, offset: 0, heads, n };
    push_op(d, plan, c6, o7, m);
    let c7 = c6.push(o7);
    let m7 = run(d, plan, c7, m);
    let o8 = Op::RopeHeads { layer, offset: s.q_rows, heads: kv_heads, n };
    push_op(d, plan, c7, o8, m);
    let c8 = c7.push(o8);
    let m8 = run(d, plan, c8, m);
    let o9 = Op::AppendKv { layer, pool: kk, offset: s.q_rows, n };
    push_op(d, plan, c8, o9, m);
    let c9 = c8.push(o9);
    let m9 = run(d, plan, c9, m);
    let o10 = Op::AppendKv { layer, pool: vv, offset: value_at, n };
    push_op(d, plan, c9, o10, m);
    let c10 = c9.push(o10);
    let m10 = run(d, plan, c10, m);
    let o11 = Op::GatherQueries { layer, n };
    push_op(d, plan, c10, o11, m);
    let c11 = c10.push(o11);
    let m11 = run(d, plan, c11, m);
    let o12 = Op::Attend { layer, span, n };
    push_op(d, plan, c11, o12, m);
    let c12 = c11.push(o12);
    let m12 = run(d, plan, c12, m);
    let c13 = if mode.live {
        push_op(d, plan, c12, Op::Lap(Phase::Attn), m);
        c12.push(Op::Lap(Phase::Attn))
    } else {
        c12
    };
    assert(c13 =~= plan.attention(l, n, span, mode));
    assert(run(d, plan, c13, m) == m12);
    if 0 <= r < n {
        let row = projected(d, plan, l, x);
        assert(m1(Buf::Normed, r) == (d.normed)(Norm::Attn(layer), x));
        assert(m2(Buf::Quants(HIDDEN), r) == (d.quantized)(HIDDEN, m1(Buf::Normed, r)));
        assert(m3(rows, r) =~= row);
        let q = row.subrange(0, s.q_rows as int);
        let k = row.subrange(s.q_rows as int, s.q_rows + s.kv_dim);
        let v = row.subrange(s.q_rows + s.kv_dim, s.q_rows + 2 * s.kv_dim);
        let e = Seq::<int>::empty();
        assert(m3(rows, r) =~= e + q + (k + v));
        lemma_norm_heads(d, plan, m3, o4, r, e, q, k + v);
        let q1 = all_normed(d, l, Section::Query, q);
        assert(m4(rows, r) =~= q1 + k + v);
        lemma_norm_heads(d, plan, m4, o5, r, q1, k, v);
        let k1 = all_normed(d, l, Section::Key, k);
        assert(m5(rows, r) =~= (q1 + k1) + v + e);
        lemma_norm_heads(d, plan, m5, o6, r, q1 + k1, v, e);
        let v1 = all_normed(d, l, Section::Value, v);
        assert(m6(rows, r) =~= e + q1 + (k1 + v1));
        lemma_rope_heads(d, plan, m6, o7, r, e, q1, k1 + v1);
        let q2 = all_rotated(d, l, r, q1);
        assert(m7(rows, r) =~= q2 + k1 + v1);
        lemma_rope_heads(d, plan, m7, o8, r, q2, k1, v1);
        let k2 = all_rotated(d, l, r, k1);
        assert(m8(rows, r) == q2 + k2 + v1);
        assert(m8(rows, r).subrange(s.q_rows as int, s.q_rows + s.kv_dim) =~= k2);
        assert(m9(kk, r) == m(kk, r) + k2);
        assert(m9(rows, r).subrange(value_at as int, value_at + s.kv_dim) =~= v1);
        assert(m10(vv, r) == m(vv, r) + v1);
        assert(m10(rows, r).subrange(0, s.q_rows as int) =~= q2);
        assert(m11(Buf::Queries, r) == q2);
        assert(m12(kk, r) == m(kk, r) + k2);
        assert(m12(vv, r) == m(vv, r) + v1);
    }
}

/// What follows the attention of a layer: its outcome goes through the output matrix,
/// is normed, and is added to the residual stream.
pub proof fn projection_computes(
    d: Device,
    plan: Plan,
    m: Contents,
    l: int,
    n: usize,
    mode: Mode,
    r: int,
)
    requires
        plan.wf(),
        complete(mode),
        0 <= l < plan.layers@.len(),
    ensures
        ({
            let after = run(d, plan, plan.projection(l, n, mode), m);
            let s = plan.layers@[l];
            &&& 0 <= r < n ==> after(Buf::Residual, r) == (d.sum)(
                m(Buf::Residual, r),
                (d.normed)(
                    Norm::PostAttn(l as usize),
                    product(
                        d,
                        Matrix::Out(l as usize),
                        HIDDEN,
                        s.q_rows,
                        (d.quantized)(s.q_rows, m(Buf::Attended, r)),
                    ),
                ),
            )
            &&& forall|b: Buf|
                !(0 <= r < n) || !(b == Buf::Normed || b == Buf::Quants(s.q_rows) || b == Buf::Rows(
                    HIDDEN,
                ) || b == Buf::Residual) ==> #[trigger] after(b, r) == m(b, r)
        }),
{
    let s = plan.layers@[l];
    let layer = l as usize;
    lemma_run_nothing(d, plan, m);
    let none = Seq::<Op>::empty();
    let o1 = Op::Quantize { src: Buf::Attended, dst: Buf::Quants(s.q_rows), k: s.q_rows, n };
    push_op(d, plan, none, o1, m);
    let c1 = none.push(o1);
    let m1 = run(d, plan, c1, m);
    let o2 = Op::Gemv {
        matrix: Matrix::Out(layer),
        x: Buf::Quants(s.q_rows),
        y: Buf::Rows(HIDDEN),
        n_rows: HIDDEN,
        k: s.q_rows,
        n,
    };
    push_op(d, plan, c1, o2, m);
    let c2 = c1.push(o2);
    let m2 = run(d, plan, c2, m);
    let o3 = Op::RmsNorm {
        src: Buf::Rows(HIDDEN),
        norm: Norm::PostAttn(layer),
        dst: Buf::Normed,
        n,
    };
    push_op(d, plan, c2, o3, m);
    let c3 = c2.push(o3);
    let m3 = run(d, plan, c3, m);
    let o4 = Op::Add { dst: Buf::Residual, src: Buf::Normed, n };
    push_op(d, plan, c3, o4, m);
    let c4 = c3.push(o4);
    let m4 = run(d, plan, c4, m);
    let c5 = if mode.live {
        push_op(d, plan, c4, Op::Lap(Phase::OutGemv), m);
        c4.push(Op::Lap(Phase::OutGemv))
    } else {
        c4
    };
    assert(c5 =~= plan.projection(l, n, mode));
    assert(run(d, plan, c5, m) == m4);
    if 0 <= r < n {
        let x = (d.quantized)(s.q_rows, m(Buf::Attended, r));
        assert(m1(Buf::Quants(s.q_rows), r) == x);
        assert(m2(Buf::Rows(HIDDEN), r) =~= product(d, Matrix::Out(layer), HIDDEN, s.q_rows, x));
        assert(m3(Buf::Normed, r) == (d.normed)(Norm::PostAttn(layer), m2(Buf::Rows(HIDDEN), r)));
        assert(m3(Buf::Residual, r) == m(Buf::Residual, r));
    }
}

/// What a layer computes besides its routed experts: the shared branch, the input of the
/// experts, and their scores, each out of the residual stream by a norm of its own.
pub proof fn shared_branch_computes(
    d: Device,
    plan: Plan,
    m: Contents,
    l: int,
    n: usize,
    mode: Mode,
    r: int,
)
    requires
        plan.wf(),
        complete(mode),
        0 <= l < plan.layers@.len(),
    ensures
        ({
            let after = run(d, plan, plan.shared_branch(l, n, mode), m);
            let x = m(Buf::Residual, r);
            &&& 0 <= r < n ==> {
                &&& after(Buf::Rows(HIDDEN), r) == shared(d, plan, l, x)
                &&& after(Buf::RoutedIn, r) == (d.normed)(Norm::PreRouted(l as usize), x)
                &&& after(Buf::RouterLogits, r) == router_scores(d, l, x)
            }
            &&& forall|b: Buf|
                !(0 <= r < n) || !(b == Buf::Normed || b == Buf::SharedIn || b == Buf::RoutedIn || b
                    == Buf::SharedQ8 || b == Buf::SharedActs || b is Rows || b is Quants || b
                    == Buf::RouterLogits) ==> #[trigger] after(b, r) == m(b, r)
        }),
{
    let layer = l as usize;
    assert(layer as int == l);
    let width = (2 * plan.ffn) as usize;
    let wide = Buf::Rows(width);
    lemma_run_nothing(d, plan, m);
    let none = Seq::<Op>::empty();
    let o1 = Op::RmsNorm { src: Buf::Residual, norm: Norm::Ffn(layer), dst: Buf::SharedIn, n };
    push_op(d, plan, none, o1, m);
    let c1 = none.push(o1);
    let m1 = run(d, plan, c1, m);
    let o2 = Op::RmsNorm {
        src: Buf::Residual,
        norm: Norm::PreRouted(layer),
        dst: Buf::RoutedIn,
        n,
    };
    push_op(d, plan, c1, o2, m);
    let c2 = c1.push(o2);
    let m2 = run(d, plan, c2, m);
    let o3 = Op::Quantize { src: Buf::SharedIn, dst: Buf::SharedQ8, k: HIDDEN, n };
    push_op(d, plan, c2, o3, m);
    let c3 = c2.push(o3);
    let m3 = run(d, plan, c3, m);
    let o4 = Op::Gemv {
        matrix: Matrix::GateUp(layer),
        x: Buf::SharedQ8,
        y: wide,
        n_rows: width,
        k: HIDDEN,
        n,
    };
    push_op(d, plan, c3, o4, m);
    let c4 = c3.push(o4);
    let m4 = run(d, plan, c4, m);
    let o5 = Op::Gelu { src: wide, dst: Buf::SharedActs, inter: plan.ffn, n };
    push_op(d, plan, c4, o5, m);
    let c5 = c4.push(o5);
    let m5 = run(d, plan, c5, m);
    let o6 = Op::Quantize { src: Buf::SharedActs, dst: Buf::Quants(plan.ffn), k: plan.ffn, n };
    push_op(d, plan, c5, o6, m);
    let c6 = c5.push(o6);
    let m6 = run(d, plan, c6, m);
    let o7 = Op::Gemv {
        matrix: Matrix::Down(layer),
        x: Buf::Quants(plan.ffn),
        y: Buf::Rows(HIDDEN),
        n_rows: HIDDEN,
        k: plan.ffn,
        n,
    };
    push_op(d, plan, c6, o7, m);
    let c7 = c6.push(o7);
    let m7 = run(d, plan, c7, m);
    let o8 = Op::RmsNorm { src: Buf::Residual, norm: Norm::Plain, dst: Buf::Normed, n };
    push_op(d, plan, c7, o8, m);
    let c8 = c7.push(o8);
    let m8 = run(d, plan, c8, m);
    let o9 = Op::RouterGemv { layer, n };
    push_op(d, plan, c8, o9, m);
    let c9 = c8.push(o9);
    let m9 = run(d, plan, c9, m);
    let c10 = if mode.live {
        push_op(d, plan, c9, Op::Lap(Phase::SharedMlp), m);
        c9.push(Op::Lap(Phase::SharedMlp))
    } else {
        c9
    };
    assert(c10 =~= plan.shared_branch(l, n, mode));
    assert(run(d, plan, c10, m) == m9);
    if 0 <= r < n {
        let x = m(Buf::Residual, r);
        assert(m1(Buf::SharedIn, r) == (d.normed)(Norm::Ffn(layer), x));
        assert(m2(Buf::RoutedIn, r) == (d.normed)(Norm::PreRouted(layer), x));
        let a = (d.quantized)(HIDDEN, (d.normed)(Norm::Ffn(layer), x));
        assert(m3(Buf::SharedQ8, r) == a);
        let b = product(d, Matrix::GateUp(layer), width, HIDDEN, a);
        assert(m4(wide, r) =~= b);
        assert(m5(Buf::SharedActs, r) == (d.gated)(plan.ffn, b));
        let c = (d.quantized)(plan.ffn, (d.gated)(plan.ffn, b));
        assert(m6(Buf::Quants(plan.ffn), r) == c);
        assert(m7(Buf::Rows(HIDDEN), r) =~= product(d, Matrix::Down(layer), HIDDEN, plan.ffn, c));
        assert(m8(Buf::Normed, r) == (d.normed)(Norm::Plain, x));
        assert(m9(Buf::RouterLogits, r) == router_scores(d, l, x));
        assert(m9(Buf::Rows(HIDDEN), r) == m7(Buf::Rows(HIDDEN), r));
    }
}

/// What a layer computes up to its routed experts.
pub proof fn front_computes(
    d: Device,
    plan: Plan,
    m: Contents,
    l: int,
    n: usize,
    span: usize,
    mode: Mode,
    r: int,
)
    requires
        plan.wf(),
        complete(mode),
        0 <= l < plan.layers@.len(),
    ensures
        ({
            let after = run(d, plan, plan.front(l, n, span, mode), m);
            let x = m(Buf::Residual, r);
            let (kk, vv) = (Buf::Keys(l as usize), Buf::Values(l as usize));
            let y = behind_attention(d, plan, l, span, r, x, m(kk, r), m(vv, r));
            &&& 0 <= r < n ==> {
                &&& after(kk, r) == m(kk, r) + keys(d, plan, l, r, x)
                &&& after(vv, r) == m(vv, r) + values(d, plan, l, x)
                &&& after(Buf::Residual, r) == y
                &&& after(Buf::Rows(HIDDEN), r) == shared(d, plan, l, y)
                &&& after(Buf::RoutedIn, r) == (d.normed)(Norm::PreRouted(l as usize), y)
                &&& after(Buf::RouterLogits, r) == router_scores(d, l, y)
            }
            &&& forall|b: Buf| #[trigger]
                after(b, r) == m(b, r) || (0 <= r < n && (b == kk || b == vv || scratch(b)))
        }),
{
    let a = plan.attention(l, n, span, mode);
    let b = plan.projection(l, n, mode);
    let c = plan.shared_branch(l, n, mode);
    lemma_run_parts(d, plan, a + b, c, m);
    lemma_run_parts(d, plan, a, b, m);
    let m1 = run(d, plan, a, m);
    let m2 = run(d, plan, b, m1);
    attention_computes(d, plan, m, l, n, span, mode, r);
    projection_computes(d, plan, m1, l, n, mode, r);
    shared_branch_computes(d, plan, m2, l, n, mode, r);
}

/// A buffer that a layer may write for itself, and the residual stream.
pub open spec fn scratch(b: Buf) -> bool {
    ||| b == Buf::Residual
    ||| b == Buf::Normed
    ||| b is Quants
    ||| b is Rows
    ||| b == Buf::Queries
    ||| b == Buf::Attended
    ||| b == Buf::SharedIn
    ||| b == Buf::RoutedIn
    ||| b == Buf::SharedQ8
    ||| b == Buf::SharedActs
    ||| b == Buf::RouterLogits
    ||| b == Buf::RoutedQ8
    ||| b == Buf::RoutedOut
    ||| b == Buf::Choices
    ||| b == Buf::PairWeights
    ||| b == Buf::PairBases
    ||| b == Buf::PairGateUp
    ||| b == Buf::PairActs
    ||| b == Buf::PairActsQ8
    ||| b == Buf::PairDown
}

/// What the experts of the pairs compute: each pair's expert is applied to the row that
/// the pair reads, and the outcomes are weighted and added up for each sequence.
pub proof fn pair_stage_computes(
    d: Device,
    plan: Plan,
    m: Contents,
    n_pairs: usize,
    n: usize,
    r: int,
)
    requires
        plan.wf(),
        forall|p: int| 0 <= p < n_pairs ==> #[trigger] m(Buf::Identity, p) == seq![p],
        forall|p: int| 0 <= p < n_pairs ==> 0 <= (#[trigger] m(Buf::PairIndex, p))[0] < n,
        0 <= r < n,
    ensures
        ({
            let after = run(d, plan, plan.pair_stage(n_pairs, n), m);
            &&& after(Buf::RoutedOut, r) == experts_sum(
                d,
                plan,
                m,
                m(Buf::RoutedOut, r),
                n_pairs as int,
                r,
            )
            &&& forall|b: Buf, q: int|
                !(b == Buf::PairGateUp || b == Buf::PairActs || b == Buf::PairActsQ8 || b
                    == Buf::PairDown || b == Buf::RoutedOut) ==> #[trigger] after(b, q) == m(b, q)
            &&& forall|q: int|
                !(0 <= q < n) ==> #[trigger] after(Buf::RoutedOut, q) == m(Buf::RoutedOut, q)
        }),
{
    let width = (2 * plan.moe_inter) as usize;
    let inter = plan.moe_inter;
    lemma_run_nothing(d, plan, m);
    let none = Seq::<Op>::empty();
    let o1 = Op::GemvPairs {
        offset: 0,
        index: Buf::PairIndex,
        x: Buf::RoutedQ8,
        x_rows: n,
        y: Buf::PairGateUp,
        n_rows: width,
        k: HIDDEN,
        n_pairs,
    };
    push_op(d, plan, none, o1, m);
    let c1 = none.push(o1);
    let m1 = run(d, plan, c1, m);
    let o2 = Op::Gelu { src: Buf::PairGateUp, dst: Buf::PairActs, inter, n: n_pairs };
    push_op(d, plan, c1, o2, m);
    let c2 = c1.push(o2);
    let m2 = run(d, plan, c2, m);
    let o3 = Op::Quantize { src: Buf::PairActs, dst: Buf::PairActsQ8, k: inter, n: n_pairs };
    push_op(d, plan, c2, o3, m);
    let c3 = c2.push(o3);
    let m3 = run(d, plan, c3, m);
    let o4 = Op::GemvPairs {
        offset: plan.gate_up_bytes,
        index: Buf::Identity,
        x: Buf::PairActsQ8,
        x_rows: n_pairs,
        y: Buf::PairDown,
        n_rows: HIDDEN,
        k: inter,
        n_pairs,
    };
    push_op(d, plan, c3, o4, m);
    let c4 = c3.push(o4);
    let m4 = run(d, plan, c4, m);
    let o5 = Op::ReducePairs { n_pairs, n };
    push_op(d, plan, c4, o5, m);
    let c5 = c4.push(o5);
    let m5 = run(d, plan, c5, m);
    assert(c5 =~= plan.pair_stage(n_pairs, n));
    assert forall|p: int| 0 <= p < n_pairs implies #[trigger] m4(Buf::PairDown, p) == expert(
        d,
        plan,
        m(Buf::PairBases, p)[0],
        m(Buf::RoutedQ8, m(Buf::PairIndex, p)[0]),
    ) by {
        let at = m(Buf::PairBases, p)[0];
        let x = m(Buf::RoutedQ8, m(Buf::PairIndex, p)[0]);
        let rows = Seq::new((2 * inter) as nat, |i: int| (d.expert_dot)(at, 0, i, HIDDEN, x));
        assert(0 <= m(Buf::PairIndex, p)[0] < n);
        assert(m1(Buf::PairGateUp, p) =~= rows);
        assert(m2(Buf::PairActs, p) == (d.gated)(inter, rows));
        let acts = (d.quantized)(inter, (d.gated)(inter, rows));
        assert(m3(Buf::PairActsQ8, p) == acts);
        assert(m3(Buf::Identity, p) == m(Buf::Identity, p));
        assert(m3(Buf::Identity, p)[0] == p);
        assert(m3(Buf::PairBases, p) == m(Buf::PairBases, p));
        assert(m4(Buf::PairDown, p) =~= expert(d, plan, at, x));
    }
    lemma_sums_agree(d, plan, m, m4, m(Buf::RoutedOut, r), n_pairs as int, r);
    assert(m4(Buf::RoutedOut, r) == m(Buf::RoutedOut, r));
}

/// The first `p` pairs that are of sequence `r`: the expert of each, applied to the row
/// that the pair reads, weighted, and all added up.
pub open spec fn experts_sum(
    d: Device,
    plan: Plan,
    m: Contents,
    start: Seq<int>,
    p: int,
    r: int,
) -> Seq<int>
    decreases p,
{
    if p <= 0 {
        start
    } else {
        let before = experts_sum(d, plan, m, start, p - 1, r);
        if m(Buf::PairSeqs, p - 1)[0] == r {
            (d.weighted_sum)(
                before,
                m(Buf::PairWeights, p - 1)[0],
                expert(
                    d,
                    plan,
                    m(Buf::PairBases, p - 1)[0],
                    m(Buf::RoutedQ8, m(Buf::PairIndex, p - 1)[0]),
                ),
            )
        } else {
            before
        }
    }
}

proof fn lemma_sums_agree(
    d: Device,
    plan: Plan,
    m: Contents,
    done: Contents,
    start: Seq<int>,
    p: int,
    r: int,
)
    requires
        forall|q: int|
            0 <= q < p ==> #[trigger] done(Buf::PairDown, q) == expert(
                d,
                plan,
                m(Buf::PairBases, q)[0],
                m(Buf::RoutedQ8, m(Buf::PairIndex, q)[0]),
            ),
        forall|q: int| #[trigger] done(Buf::PairSeqs, q) == m(Buf::PairSeqs, q),
        forall|q: int| #[trigger] done(Buf::PairWeights, q) == m(Buf::PairWeights, q),
    ensures
        pairs_sum(d, done, start, p, r) == experts_sum(d, plan, m, start, p, r),
    decreases p,
{
    if p > 0 {
        lemma_sums_agree(d, plan, m, done, start, p - 1, r);
        assert(done(Buf::PairDown, p - 1) == expert(
            d,
            plan,
            m(Buf::PairBases, p - 1)[0],
            m(Buf::RoutedQ8, m(Buf::PairIndex, p - 1)[0]),
        ));
        assert(done(Buf::PairSeqs, p - 1) == m(Buf::PairSeqs, p - 1));
        assert(done(Buf::PairWeights, p - 1) == m(Buf::PairWeights, p - 1));
    }
}

/// The lists that a step with experts chosen on the device is given: the pairs of a
/// sequence stand side by side.
pub open spec fn given_lists(plan: Plan, m: Contents, n: usize) -> bool {
    forall|p: int|
        #![trigger m(Buf::Identity, p)]
        #![trigger m(Buf::PairIndex, p)]
        #![trigger m(Buf::PairSeqs, p)]
        0 <= p < n * plan.topk ==> {
            &&& m(Buf::Identity, p) == seq![p]
            &&& m(Buf::PairIndex, p) == seq![p / plan.topk as int]
            &&& m(Buf::PairSeqs, p) == seq![p / plan.topk as int]
        }
}

proof fn lemma_place(p: int, k: int, r: int)
    requires
        0 <= p,
        k > 0,
        0 <= r,
    ensures
        p / k == r <==> r * k <= p < (r + 1) * k,
        p / k == r ==> p % k == p - r * k,
        0 <= p / k,
{
    vstd::arithmetic::div_mod::lemma_fundamental_div_mod(p, k);
    vstd::arithmetic::div_mod::lemma_mod_bound(p, k);
    vstd::arithmetic::div_mod::lemma_div_pos_is_pos(p, k);
    let q = p / k;
    assert(p == k * q + p % k);
    if q == r {
        assert(k * q == r * k && (r + 1) * k == r * k + k) by (nonlinear_arith)
            requires
                q == r,
        ;
    } else if q < r {
        assert(k * q + k <= r * k) by (nonlinear_arith)
            requires
                q + 1 <= r,
                k > 0,
        ;
    } else {
        assert((r + 1) * k <= k * q) by (nonlinear_arith)
            requires
                r + 1 <= q,
                k > 0,
        ;
    }
}

proof fn lemma_routed_sum(
    d: Device,
    plan: Plan,
    m: Contents,
    l: int,
    n: usize,
    r: int,
    y: Seq<int>,
    p: int,
)
    requires
        0 <= r < n,
        0 <= p <= n * plan.topk,
        plan.topk > 0,
        given_lists(plan, m, n),
        m(Buf::RoutedQ8, r) == routed_in(d, l, y),
        forall|q: int|
            #![trigger m(Buf::PairWeights, q)]
            #![trigger m(Buf::PairBases, q)]
            0 <= q < n * plan.topk && q / plan.topk as int == r ==> {
                let j = q % plan.topk as int;
                let scores = router_scores(d, l, y);
                &&& m(Buf::PairWeights, q)[0] == (d.weight)(l, scores, j)
                &&& m(Buf::PairBases, q)[0] == (d.address)(l, (d.chosen)(l, scores, j))
            },
    ensures
        experts_sum(d, plan, m, d.zeros, p, r) == routed(
            d,
            plan,
            l,
            y,
            if p <= r * plan.topk {
                0
            } else if p <= (r + 1) * plan.topk {
                p - r * plan.topk
            } else {
                plan.topk as int
            },
        ),
    decreases p,
{
    let k = plan.topk as int;
    assert((r + 1) * k == r * k + k) by (nonlinear_arith);
    assert(0 <= r * k) by (nonlinear_arith)
        requires
            0 <= r,
            0 < k,
    ;
    if p > 0 {
        lemma_routed_sum(d, plan, m, l, n, r, y, p - 1);
        lemma_place(p - 1, k, r);
        assert(m(Buf::PairSeqs, p - 1) == seq![(p - 1) / k]);
        assert(m(Buf::PairIndex, p - 1) == seq![(p - 1) / k]);
        let at = m(Buf::PairBases, p - 1)[0];
        let w = m(Buf::PairWeights, p - 1)[0];
    }
}

/// What the routed experts of a layer compute: for each sequence its chosen experts, each
/// applied to the input and weighted, and all added up and combined with the shared
/// branch and the residual stream.
pub proof fn device_experts_compute(
    d: Device,
    plan: Plan,
    m: Contents,
    l: int,
    n: usize,
    mode: Mode,
    r: int,
    y: Seq<int>,
)
    requires
        plan.wf(),
        plan.topk > 0,
        plan.step_fits(n),
        complete(mode),
        0 <= l < plan.layers@.len(),
        given_lists(plan, m, n),
        0 <= r < n,
        m(Buf::RoutedIn, r) == (d.normed)(Norm::PreRouted(l as usize), y),
        m(Buf::RouterLogits, r) == router_scores(d, l, y),
    ensures
        ({
            let after = run(d, plan, plan.device_experts(l, n, mode), m);
            after(Buf::Residual, r) == (d.combined)(
                l,
                m(Buf::Residual, r),
                m(Buf::Rows(HIDDEN), r),
                routed(d, plan, l, y, plan.topk as int),
            )
        }),
{
    let layer = l as usize;
    assert(layer as int == l);
    let entries = (n * plan.topk) as usize;
    assert(entries as int == n * plan.topk);
    let k = plan.topk as int;
    let c6 = lemma_device_chain(d, plan, m, l, n, mode);
    let m6 = run(d, plan, c6, m);
    assert forall|q: int|
        #![trigger m6(Buf::PairWeights, q)]
        #![trigger m6(Buf::PairBases, q)]
        0 <= q < n * plan.topk && q / plan.topk as int == r implies ({
        let j = q % plan.topk as int;
        let scores = router_scores(d, l, y);
        &&& m6(Buf::PairWeights, q)[0] == (d.weight)(l, scores, j)
        &&& m6(Buf::PairBases, q)[0] == (d.address)(l, (d.chosen)(l, scores, j))
    }) by {}
    assert(given_lists(plan, m6, n)) by {
        assert forall|p: int|
            #![trigger m6(Buf::Identity, p)]
            #![trigger m6(Buf::PairIndex, p)]
            #![trigger m6(Buf::PairSeqs, p)]
            0 <= p < n * plan.topk implies {
            &&& m6(Buf::Identity, p) == seq![p]
            &&& m6(Buf::PairIndex, p) == seq![p / plan.topk as int]
            &&& m6(Buf::PairSeqs, p) == seq![p / plan.topk as int]
        } by {
            assert(m(Buf::Identity, p) == seq![p]);
        }
    }
    assert forall|p: int| 0 <= p < entries implies #[trigger] m6(Buf::Identity, p) == seq![p] by {}
    assert forall|p: int| 0 <= p < entries implies 0 <= (#[trigger] m6(Buf::PairIndex, p))[0] < n by {
        assert(m6(Buf::PairIndex, p) == seq![p / k]);
        lemma_place(p, k, p / k);
        assert(p / k < n) by (nonlinear_arith)
            requires
                (p / k) * k <= p,
                p < n * k,
                k > 0,
        ;
    }
    pair_stage_computes(d, plan, m6, entries, n, r);
    assert(m6(Buf::RoutedOut, r) == d.zeros);
    assert((r + 1) * k <= n * k) by (nonlinear_arith)
        requires
            r + 1 <= n,
            k > 0,
    ;
    assert((r + 1) * k == r * k + k) by (nonlinear_arith);
    lemma_routed_sum(d, plan, m6, l, n, r, y, n * k);
    let m7 = run(d, plan, plan.pair_stage(entries, n), m6);
    assert(m7(Buf::RoutedOut, r) == routed(d, plan, l, y, k));
}

/// The operations of the routed experts in three parts: before the pairs, the pairs, and
/// behind them.
proof fn lemma_device_chain(
    d: Device,
    plan: Plan,
    m: Contents,
    l: int,
    n: usize,
    mode: Mode,
) -> (r: Seq<Op>)
    requires
        plan.wf(),
        plan.step_fits(n),
        complete(mode),
        0 <= l < plan.layers@.len(),
    ensures
        ({
            let entries = (n * plan.topk) as usize;
            let m6 = run(d, plan, r, m);
            let m7 = run(d, plan, plan.pair_stage(entries, n), m6);
            let after = run(d, plan, plan.device_experts(l, n, mode), m);
            let top = performed(
                d,
                plan,
                Op::TopK { layer: l as usize, n },
                m,
            );
            &&& forall|b: Buf, q: int| #[trigger]
                m6(b, q) == if b == Buf::RoutedQ8 && 0 <= q < n {
                    (d.quantized)(HIDDEN, m(Buf::RoutedIn, q))
                } else if b == Buf::RoutedOut && 0 <= q < n {
                    d.zeros
                } else if b == Buf::PairBases && 0 <= q < entries {
                    seq![(d.address)(l, top(Buf::Choices, q)[0])]
                } else {
                    top(b, q)
                }
            &&& forall|b: Buf, q: int| #[trigger]
                after(b, q) == if b == Buf::Residual && 0 <= q < n {
                    (d.combined)(
                        l,
                        m7(Buf::Residual, q),
                        m7(Buf::Rows(HIDDEN), q),
                        m7(Buf::RoutedOut, q),
                    )
                } else {
                    m7(b, q)
                }
        }),
{
    let layer = l as usize;
    assert(layer as int == l);
    let entries = (n * plan.topk) as usize;
    lemma_run_nothing(d, plan, m);
    let none = Seq::<Op>::empty();
    let o1 = Op::Quantize { src: Buf::RoutedIn, dst: Buf::RoutedQ8, k: HIDDEN, n };
    push_op(d, plan, none, o1, m);
    let c1 = none.push(o1);
    let m1 = run(d, plan, c1, m);
    let o2 = Op::TopK { layer, n };
    push_op(d, plan, c1, o2, m);
    let c2 = c1.push(o2);
    let m2 = run(d, plan, c2, m);
    let c3 = if mode.live {
        push_op(d, plan, c2, Op::Lap(Phase::Router), m);
        push_op(d, plan, c2.push(Op::Lap(Phase::Router)), Op::WaitPending, m);
        c2.push(Op::Lap(Phase::Router)).push(Op::WaitPending)
    } else {
        c2
    };
    assert(run(d, plan, c3, m) == m2);
    let o4 = Op::Admit { layer, entries };
    push_op(d, plan, c3, o4, m);
    let c4 = c3.push(o4);
    let m4 = run(d, plan, c4, m);
    push_op(d, plan, c4, Op::Fork, m);
    let f = c4.push(Op::Fork);
    push_op(d, plan, f, Op::Promote { entries }, m);
    let g = f.push(Op::Promote { entries });
    push_op(d, plan, g, Op::Join, m);
    let h = g.push(Op::Join);
    let c5 = if mode.live {
        push_op(d, plan, h, Op::Lap(Phase::Embed), m);
        h.push(Op::Lap(Phase::Embed))
    } else {
        h
    };
    assert(run(d, plan, c5, m) == m4);
    let o6 = Op::ClearRouted { n };
    push_op(d, plan, c5, o6, m);
    let c6 = c5.push(o6);
    let m6 = run(d, plan, c6, m);
    let pairs = plan.pair_stage(entries, n);
    lemma_run_parts(d, plan, c6, pairs, m);
    let c7 = c6 + pairs;
    let o8 = Op::Combine { layer, n };
    push_op(d, plan, c7, o8, m);
    let c8 = c7.push(o8);
    let c9 = if mode.live {
        push_op(d, plan, c8, Op::Lap(Phase::Moe), m);
        c8.push(Op::Lap(Phase::Moe))
    } else {
        c8
    };
    assert(c9 =~= plan.device_experts(l, n, mode));
    let top = performed(d, plan, o2, m);
    assert forall|b: Buf, q: int| #[trigger]
        m6(b, q) == if b == Buf::RoutedQ8 && 0 <= q < n {
            (d.quantized)(HIDDEN, m(Buf::RoutedIn, q))
        } else if b == Buf::RoutedOut && 0 <= q < n {
            d.zeros
        } else if b == Buf::PairBases && 0 <= q < entries {
            seq![(d.address)(l, top(Buf::Choices, q)[0])]
        } else {
            top(b, q)
        } by {
        assert(m2(Buf::Choices, q) == top(Buf::Choices, q));
        assert(m1(Buf::RouterLogits, q / plan.topk as int) == m(
            Buf::RouterLogits,
            q / plan.topk as int,
        ));
    }
    c6
}

/// A layer with experts chosen on the device leaves everything else as it was: what
/// sequences beyond the first `n` have, and the lists that the step was given.
proof fn lemma_layer_frame(
    d: Device,
    plan: Plan,
    m: Contents,
    l: int,
    n: usize,
    mode: Mode,
    r: int,
)
    requires
        plan.wf(),
        plan.topk > 0,
        plan.step_fits(n),
        complete(mode),
        0 <= l < plan.layers@.len(),
        given_lists(plan, m, n),
        n > 0,
    ensures
        ({
            let after = run(d, plan, plan.device_experts(l, n, mode), m);
            &&& forall|b: Buf| !scratch(b) ==> #[trigger] after(b, r) == m(b, r)
            &&& !(0 <= r < n) ==> after(Buf::Residual, r) == m(Buf::Residual, r)
        }),
{
    let entries = (n * plan.topk) as usize;
    let k = plan.topk as int;
    assert(entries as int == n * plan.topk);
    let c6 = lemma_device_chain(d, plan, m, l, n, mode);
    let m6 = run(d, plan, c6, m);
    assert forall|p: int| 0 <= p < entries implies #[trigger] m6(Buf::Identity, p) == seq![p] by {
        assert(m(Buf::Identity, p) == seq![p]);
    }
    assert forall|p: int| 0 <= p < entries implies 0 <= (#[trigger] m6(Buf::PairIndex, p))[0] < n by {
        assert(m(Buf::PairIndex, p) == seq![p / k]);
        lemma_place(p, k, p / k);
        assert(p / k < n) by (nonlinear_arith)
            requires
                (p / k) * k <= p,
                p < n * k,
                k > 0,
        ;
    }
    pair_stage_computes(d, plan, m6, entries, n, 0);
}

/// What the first layers compute: each reads what the one before left in the residual
/// stream, and keeps its own keys and values.
pub proof fn layers_compute(
    d: Device,
    plan: Plan,
    m: Contents,
    l: int,
    n: usize,
    span: usize,
    mode: Mode,
    r: int,
)
    requires
        plan.wf(),
        plan.topk > 0,
        plan.step_fits(n),
        complete(mode),
        0 <= l <= plan.layers@.len(),
        given_lists(plan, m, n),
        n > 0,
    ensures
        ({
            let after = run(d, plan, plan.layers_upto(l, n, span, mode), m);
            &&& 0 <= r < n ==> after(Buf::Residual, r) == stream_behind(d, plan, m, l, span, r)
            &&& !(0 <= r < n) ==> after(Buf::Residual, r) == m(Buf::Residual, r)
            &&& forall|j: int|
                0 <= j < plan.layers@.len() ==> {
                    let more = 0 <= r < n && j < l;
                    let x = stream_behind(d, plan, m, j, span, r);
                    &&& #[trigger] after(Buf::Keys(j as usize), r) == m(Buf::Keys(j as usize), r)
                        + if more {
                        keys(d, plan, j, r, x)
                    } else {
                        seq![]
                    }
                    &&& after(Buf::Values(j as usize), r) == m(Buf::Values(j as usize), r)
                        + if more {
                        values(d, plan, j, x)
                    } else {
                        seq![]
                    }
                }
            &&& given_lists(plan, after, n)
        }),
    decreases l,
{
    if l <= 0 {
        lemma_run_nothing(d, plan, m);
        assert(plan.layers_upto(l, n, span, mode) =~= seq![]);
        assert forall|b: Buf| #[trigger] m(b, r) + Seq::<int>::empty() == m(b, r) by {
            assert(m(b, r) + Seq::<int>::empty() =~= m(b, r));
        }
    } else {
        let before = plan.layers_upto(l - 1, n, span, mode);
        let front = plan.front(l - 1, n, span, mode);
        let experts = plan.device_experts(l - 1, n, mode);
        layers_compute(d, plan, m, l - 1, n, span, mode, r);
        lemma_run_parts(d, plan, before + front, experts, m);
        lemma_run_parts(d, plan, before, front, m);
        let a = run(d, plan, before, m);
        let b = run(d, plan, front, a);
        let c = run(d, plan, experts, b);
        front_computes(d, plan, a, l - 1, n, span, mode, r);
        lemma_lists_kept_by_front(d, plan, a, l - 1, n, span, mode);
        lemma_layer_frame(d, plan, b, l - 1, n, mode, r);
        let x = a(Buf::Residual, r);
        let (kk, vv) = (Buf::Keys((l - 1) as usize), Buf::Values((l - 1) as usize));
        assert(a(kk, r) == m(kk, r) + Seq::<int>::empty());
        assert(m(kk, r) + Seq::<int>::empty() =~= m(kk, r));
        assert(m(vv, r) + Seq::<int>::empty() =~= m(vv, r));
        if 0 <= r < n {
            let y = behind_attention(d, plan, l - 1, span, r, x, a(kk, r), a(vv, r));
            device_experts_compute(d, plan, b, l - 1, n, mode, r, y);
        }
        assert forall|p: int|
            #![trigger c(Buf::Identity, p)]
            #![trigger c(Buf::PairIndex, p)]
            #![trigger c(Buf::PairSeqs, p)]
            0 <= p < n * plan.topk implies {
            &&& c(Buf::Identity, p) == seq![p]
            &&& c(Buf::PairIndex, p) == seq![p / plan.topk as int]
            &&& c(Buf::PairSeqs, p) == seq![p / plan.topk as int]
        } by {
            lemma_layer_frame(d, plan, b, l - 1, n, mode, p);
            assert(b(Buf::Identity, p) == seq![p]);
        }
        assert forall|j: int| 0 <= j < plan.layers@.len() implies ({
            let more = 0 <= r < n && j < l;
            let x = stream_behind(d, plan, m, j, span, r);
            &&& #[trigger] c(Buf::Keys(j as usize), r) == m(Buf::Keys(j as usize), r) + if more {
                keys(d, plan, j, r, x)
            } else {
                seq![]
            }
            &&& c(Buf::Values(j as usize), r) == m(Buf::Values(j as usize), r) + if more {
                values(d, plan, j, x)
            } else {
                seq![]
            }
        }) by {
            assert(a(Buf::Keys(j as usize), r) == a(Buf::Keys(j as usize), r));
            assert(b(Buf::Keys(j as usize), r) == b(Buf::Keys(j as usize), r));
            assert(b(Buf::Values(j as usize), r) == b(Buf::Values(j as usize), r));
            assert(c(Buf::Values(j as usize), r) == b(Buf::Values(j as usize), r));
        }
    }
}

proof fn lemma_lists_kept_by_front(
    d: Device,
    plan: Plan,
    m: Contents,
    l: int,
    n: usize,
    span: usize,
    mode: Mode,
)
    requires
        plan.wf(),
        complete(mode),
        0 <= l < plan.layers@.len(),
        given_lists(plan, m, n),
    ensures
        given_lists(plan, run(d, plan, plan.front(l, n, span, mode), m), n),
{
    let after = run(d, plan, plan.front(l, n, span, mode), m);
    assert forall|p: int|
        #![trigger after(Buf::Identity, p)]
        #![trigger after(Buf::PairIndex, p)]
        #![trigger after(Buf::PairSeqs, p)]
        0 <= p < n * plan.topk implies {
        &&& after(Buf::Identity, p) == seq![p]
        &&& after(Buf::PairIndex, p) == seq![p / plan.topk as int]
        &&& after(Buf::PairSeqs, p) == seq![p / plan.topk as int]
    } by {
        front_computes(d, plan, m, l, n, span, mode, p);
        assert(m(Buf::Identity, p) == seq![p]);
        assert(after(Buf::Identity, p) == m(Buf::Identity, p));
        assert(after(Buf::PairIndex, p) == m(Buf::PairIndex, p));
        assert(after(Buf::PairSeqs, p) == m(Buf::PairSeqs, p));
    }
}

/// What the end of a step computes: the scores of the tokens out of the residual stream,
/// and the next token out of these where one is asked for.
pub proof fn tail_computes(
    d: Device,
    plan: Plan,
    m: Contents,
    n: usize,
    mode: Mode,
    sample: bool,
    r: int,
)
    requires
        complete(mode),
    ensures
        ({
            let after = run(d, plan, plan.tail(n, mode) + plan.finish(n, sample), m);
            let scores = token_scores(d, plan, m(Buf::Residual, r));
            &&& 0 <= r < n ==> {
                &&& after(Buf::Logits, r) == scores
                &&& sample ==> after(Buf::Tokens, r) == seq![(d.token)(r, scores)]
                &&& !sample ==> after(Buf::Tokens, r) == m(Buf::Tokens, r)
            }
            &&& forall|b: Buf|
                !(0 <= r < n) || !(b == Buf::Normed || b == Buf::SharedQ8 || b == Buf::Logits || b
                    == Buf::Tokens) ==> #[trigger] after(b, r) == m(b, r)
            &&& plan.finish(n, sample) == seq![
                if sample {
                    Op::Sample { n }
                } else {
                    Op::DownloadLogits { n }
                },
            ]
        }),
{
    lemma_run_nothing(d, plan, m);
    let none = Seq::<Op>::empty();
    let o1 = Op::RmsNorm { src: Buf::Residual, norm: Norm::Final, dst: Buf::Normed, n };
    push_op(d, plan, none, o1, m);
    let c1 = none.push(o1);
    let m1 = run(d, plan, c1, m);
    let o2 = Op::Quantize { src: Buf::Normed, dst: Buf::SharedQ8, k: HIDDEN, n };
    push_op(d, plan, c1, o2, m);
    let c2 = c1.push(o2);
    let m2 = run(d, plan, c2, m);
    let o3 = Op::Gemv {
        matrix: Matrix::LmHead,
        x: Buf::SharedQ8,
        y: Buf::Logits,
        n_rows: plan.vocab,
        k: HIDDEN,
        n,
    };
    push_op(d, plan, c2, o3, m);
    let c3 = c2.push(o3);
    let m3 = run(d, plan, c3, m);
    let c4 = if mode.live {
        push_op(d, plan, c3, Op::Lap(Phase::Combine), m);
        c3.push(Op::Lap(Phase::Combine))
    } else {
        c3
    };
    let last = if sample {
        Op::Sample { n }
    } else {
        Op::DownloadLogits { n }
    };
    push_op(d, plan, c4, last, m);
    let c5 = c4.push(last);
    assert(c5 =~= plan.tail(n, mode) + plan.finish(n, sample));
    if 0 <= r < n {
        let x = m(Buf::Residual, r);
        assert(m1(Buf::Normed, r) == (d.normed)(Norm::Final, x));
        assert(m2(Buf::SharedQ8, r) == (d.quantized)(HIDDEN, m1(Buf::Normed, r)));
        assert(m3(Buf::Logits, r) =~= token_scores(d, plan, x));
    }
}

/// A captured step computes what the model says: the scores of each sequence's tokens out
/// of what all layers make of the residual stream one after the other, and the next token
/// out of these. What a sequence gets does not depend on the other sequences.
pub proof fn stack_computes(d: Device, plan: Plan, m: Contents, n: usize, mode: Mode, r: int)
    requires
        plan.wf(),
        plan.topk > 0,
        plan.step_fits(n),
        complete(mode),
        given_lists(plan, m, n),
        0 <= r < n,
    ensures
        ({
            let after = run(d, plan, plan.stack(n, mode), m);
            let all = plan.layers@.len() as int;
            let x = stream_behind(d, plan, m, all, plan.max_seq, r);
            &&& after(Buf::Logits, r) == token_scores(d, plan, x)
            &&& after(Buf::Tokens, r) == seq![(d.token)(r, token_scores(d, plan, x))]
        }),
{
    let all = plan.layers@.len() as int;
    let layers = plan.layers_upto(all, n, plan.max_seq, mode);
    let end = plan.tail(n, mode) + plan.finish(n, true);
    layers_compute(d, plan, m, all, n, plan.max_seq, mode, r);
    push_op(d, plan, layers, Op::WaitPending, m);
    let before = layers.push(Op::WaitPending);
    lemma_run_parts(d, plan, before, end, m);
    assert(plan.stack(n, mode) =~= before + end);
    tail_computes(d, plan, run(d, plan, before, m), n, mode, true, r);
}

/// So does a live step with experts chosen on the device.
pub proof fn live_step_computes(
    d: Device,
    plan: Plan,
    m: Contents,
    n: usize,
    span: usize,
    mode: Mode,
    sample: bool,
    r: int,
)
    requires
        plan.wf(),
        plan.topk > 0,
        plan.step_fits(n),
        complete(mode),
        given_lists(plan, m, n),
        0 <= r < n,
    ensures
        ({
            let all = plan.layers@.len() as int;
            let ops = plan.layers_upto(all, n, span, mode) + (plan.tail(n, mode) + plan.finish(
                n,
                sample,
            ));
            let after = run(d, plan, ops, m);
            let scores = token_scores(d, plan, stream_behind(d, plan, m, all, span, r));
            &&& after(Buf::Logits, r) == scores
            &&& sample ==> after(Buf::Tokens, r) == seq![(d.token)(r, scores)]
        }),
{
    let all = plan.layers@.len() as int;
    let layers = plan.layers_upto(all, n, span, mode);
    let end = plan.tail(n, mode) + plan.finish(n, sample);
    layers_compute(d, plan, m, all, n, span, mode, r);
    lemma_run_parts(d, plan, layers, end, m);
    tail_computes(d, plan, run(d, plan, layers, m), n, mode, sample, r);
}

/// What the routed experts of a layer compute that were chosen on the host: for each
/// sequence the experts of its pairs and what the host computed for it, combined with the
/// shared branch and the residual stream.
pub proof fn host_experts_compute(
    d: Device,
    plan: Plan,
    m: Contents,
    l: int,
    n: usize,
    n_pairs: usize,
    any_host: bool,
    r: int,
)
    requires
        plan.wf(),
        0 <= l < plan.layers@.len(),
        0 <= r < n,
        forall|p: int| 0 <= p < n_pairs ==> #[trigger] m(Buf::Identity, p) == seq![p],
        forall|p: int| 0 <= p < n_pairs ==> 0 <= #[trigger] (d.uploaded)(Buf::PairIndex, p) < n,
    ensures
        ({
            let after = run(d, plan, plan.host_experts(l, n, n_pairs, any_host), m);
            let on_device = uploaded_sum(d, plan, m, n_pairs as int, r);
            &&& after(Buf::Residual, r) == (d.combined)(
                l,
                m(Buf::Residual, r),
                m(Buf::Rows(HIDDEN), r),
                if any_host {
                    (d.sum)(on_device, (d.on_host)(r))
                } else {
                    on_device
                },
            )
            &&& forall|b: Buf, q: int|
                !scratch(b) && b != Buf::PairIndex && b != Buf::PairSeqs ==> #[trigger] after(b, q)
                    == m(b, q)
        }),
{
    let layer = l as usize;
    assert(layer as int == l);
    lemma_run_nothing(d, plan, m);
    let none = Seq::<Op>::empty();
    push_op(d, plan, none, Op::Lap(Phase::Router), m);
    let c0 = none.push(Op::Lap(Phase::Router));
    let o1 = Op::Quantize { src: Buf::RoutedIn, dst: Buf::RoutedQ8, k: HIDDEN, n };
    push_op(d, plan, c0, o1, m);
    let c1 = c0.push(o1);
    push_op(d, plan, c1, Op::WaitPending, m);
    let c2 = c1.push(Op::WaitPending);
    push_op(d, plan, c2, Op::FetchExperts, m);
    let c3 = c2.push(Op::FetchExperts);
    push_op(d, plan, c3, Op::ClearRouted { n }, m);
    let c4 = c3.push(Op::ClearRouted { n });
    let m4 = run(d, plan, c4, m);
    let up = Op::UploadPairs { n_pairs };
    let c6 = if n_pairs > 0 {
        push_op(d, plan, c4, up, m);
        let c5 = c4.push(up);
        let m5 = run(d, plan, c5, m);
        let pairs = plan.pair_stage(n_pairs, n);
        lemma_run_parts(d, plan, c5, pairs, m);
        assert forall|p: int| 0 <= p < n_pairs implies #[trigger] m5(Buf::Identity, p) == seq![p] by {
            assert(m(Buf::Identity, p) == seq![p]);
        }
        assert forall|p: int| 0 <= p < n_pairs implies 0 <= (#[trigger] m5(
            Buf::PairIndex,
            p,
        ))[0] < n by {
            assert(0 <= (d.uploaded)(Buf::PairIndex, p) < n);
        }
        pair_stage_computes(d, plan, m5, n_pairs, n, r);
        lemma_uploaded_sum(d, plan, m, m5, n, n_pairs as int, r);
        c5 + pairs
    } else {
        c4
    };
    let m6 = run(d, plan, c6, m);
    assert(m6(Buf::RoutedOut, r) == uploaded_sum(d, plan, m, n_pairs as int, r));
    let host = Op::HostExperts { n };
    let add = Op::Add { dst: Buf::RoutedOut, src: Buf::SharedIn, n };
    let c8 = if any_host {
        push_op(d, plan, c6, host, m);
        push_op(d, plan, c6.push(host), add, m);
        c6.push(host).push(add)
    } else {
        c6
    };
    let o9 = Op::Combine { layer, n };
    push_op(d, plan, c8, o9, m);
    let c9 = c8.push(o9);
    push_op(d, plan, c9, Op::Lap(Phase::Moe), m);
    let c10 = c9.push(Op::Lap(Phase::Moe));
    assert(c10 =~= plan.host_experts(l, n, n_pairs, any_host));
}

/// The first `p` pairs that the host chose and that are of sequence `r`: the expert of
/// each, applied to the input that the pair names, weighted, and all added up.
pub open spec fn uploaded_sum(d: Device, plan: Plan, m: Contents, p: int, r: int) -> Seq<int>
    decreases p,
{
    if p <= 0 {
        d.zeros
    } else {
        let before = uploaded_sum(d, plan, m, p - 1, r);
        if (d.uploaded)(Buf::PairSeqs, p - 1) == r {
            (d.weighted_sum)(
                before,
                (d.uploaded)(Buf::PairWeights, p - 1),
                expert(
                    d,
                    plan,
                    (d.uploaded)(Buf::PairBases, p - 1),
                    (d.quantized)(
                        HIDDEN,
                        m(Buf::RoutedIn, (d.uploaded)(Buf::PairIndex, p - 1)),
                    ),
                ),
            )
        } else {
            before
        }
    }
}

proof fn lemma_uploaded_sum(
    d: Device,
    plan: Plan,
    m: Contents,
    now: Contents,
    n: usize,
    p: int,
    r: int,
)
    requires
        forall|q: int|
            0 <= q < p ==> {
                &&& #[trigger] now(Buf::PairSeqs, q) == seq![(d.uploaded)(Buf::PairSeqs, q)]
                &&& now(Buf::PairWeights, q) == seq![(d.uploaded)(Buf::PairWeights, q)]
                &&& now(Buf::PairBases, q) == seq![(d.uploaded)(Buf::PairBases, q)]
                &&& now(Buf::PairIndex, q) == seq![(d.uploaded)(Buf::PairIndex, q)]
                &&& 0 <= (d.uploaded)(Buf::PairIndex, q) < n
            },
        forall|q: int|
            0 <= q < n ==> #[trigger] now(Buf::RoutedQ8, q) == (d.quantized)(
                HIDDEN,
                m(Buf::RoutedIn, q),
            ),
    ensures
        experts_sum(d, plan, now, d.zeros, p, r) == uploaded_sum(d, plan, m, p, r),
    decreases p,
{
    if p > 0 {
        lemma_uploaded_sum(d, plan, m, now, n, p - 1, r);
        assert(now(Buf::PairSeqs, p - 1) == seq![(d.uploaded)(Buf::PairSeqs, p - 1)]);
        let q = (d.uploaded)(Buf::PairIndex, p - 1);
        assert(now(Buf::RoutedQ8, q) == (d.quantized)(HIDDEN, m(Buf::RoutedIn, q)));
    }
}

} // verus!
