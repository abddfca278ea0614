//! A decode step as a list of device operations, in the order in which they are
//! issued. Which operations there are, on which buffers and of which sizes, is
//! decided here; issuing them is left to the caller.

use crate::config::HIDDEN;
use crate::launch::Launch;
use crate::plan::{Buf, LayerShape, Plan};
use vstd::prelude::*;

verus! {

/// A weight matrix in the q4r layout.
#[derive(Debug, Clone, Copy, PartialEq, Eq, Hash)]
pub enum Matrix {
    /// Queries, keys and values of a layer.
    Qkv(usize),
    /// The output projection of a layer's attention.
    Out(usize),
    /// Gate and up matrix of a layer's shared branch.
    GateUp(usize),
    /// Down matrix of a layer's shared branch.
    Down(usize),
    /// The last matrix, from the residual stream to the scores of the tokens.
    LmHead,
}

/// The weights of a norm.
#[derive(Debug, Clone, Copy, PartialEq, Eq, Hash)]
pub enum Norm {
    /// Before the attention of a layer.
    Attn(usize),
    /// Behind the attention of a layer.
    PostAttn(usize),
    /// Before the shared branch of a layer.
    Ffn(usize),
    /// Before the routed experts of a layer.
    PreRouted(usize),
    /// Before the last matrix.
    Final,
    /// No weights.
    Plain,
}

/// A part of the rows of queries, keys and values.
#[derive(Debug, Clone, Copy, PartialEq, Eq)]
pub enum Section {
    Query,
    Key,
    Value,
}

/// A part of a step, for the measurement of time.
#[derive(Debug, Clone, Copy, PartialEq, Eq)]
pub enum Phase {
    Embed,
    AttnNorms,
    QkvGemv,
    Attn,
    OutGemv,
    SharedMlp,
    Router,
    Moe,
    Combine,
    LmHead,
}

/// An operation of a decode step, for `n` sequences.
#[derive(Debug, Clone, Copy, PartialEq, Eq)]
pub enum Op {
    /// Starts a measurement of time.
    StartLap,
    /// Ends a measurement of time, which counts for a phase, and starts the next.
    Lap(Phase),
    /// The normed rows of `src`.
    RmsNorm { src: Buf, norm: Norm, dst: Buf, n: usize },
    /// The quantized rows of `src`, which have `k` elements each.
    Quantize { src: Buf, dst: Buf, k: usize, n: usize },
    /// A matrix times the quantized rows.
    Gemv { matrix: Matrix, x: Buf, y: Buf, n_rows: usize, k: usize, n: usize },
    /// Norms the heads of a section in place, with the section's weights or none.
    NormHeads { layer: usize, section: Section, offset: usize, heads: usize, n: usize },
    /// Rotates the heads of a section in place.
    RopeHeads { layer: usize, offset: usize, heads: usize, n: usize },
    /// Appends a section to the keys or values of a layer.
    AppendKv { layer: usize, pool: Buf, offset: usize, n: usize },
    /// Copies the queries out of their rows.
    GatherQueries { layer: usize, n: usize },
    /// Attention to at most `span` positions.
    Attend { layer: usize, span: usize, n: usize },
    /// Adds rows of `src` to those of `dst`.
    Add { dst: Buf, src: Buf, n: usize },
    /// The activation of the first half of each row times the second half.
    Gelu { src: Buf, dst: Buf, inter: usize, n: usize },
    /// The scores of the experts.
    RouterGemv { layer: usize, n: usize },
    /// The choice of experts and their weights.
    TopK { layer: usize, n: usize },
    /// Waits for copies that were left running.
    WaitPending,
    /// The bookkeeping of the slot cache for the chosen experts.
    Admit { layer: usize, entries: usize },
    /// Lets the copies wait for what was issued so far.
    Fork,
    /// Copies missing experts into their slots.
    Promote { entries: usize },
    /// Waits for the copies.
    Join,
    /// Sets the sum over the pairs to zero.
    ClearRouted { n: usize },
    /// The experts' matrices, at an offset into each expert, times the rows that
    /// each pair reads of `x_rows` quantized rows.
    GemvPairs {
        offset: usize,
        index: Buf,
        x: Buf,
        x_rows: usize,
        y: Buf,
        n_rows: usize,
        k: usize,
        n_pairs: usize,
    },
    /// Adds the weighted outcome of each pair to its sequence.
    ReducePairs { n_pairs: usize, n: usize },
    /// Combines both branches with the residual stream.
    Combine { layer: usize, n: usize },
    /// Chooses the next tokens.
    Sample { n: usize },
    /// Brings the scores of the experts and their input to the host.
    DownloadRouter { n: usize },
    /// Copies chosen experts into their slots, and leaves that running.
    FetchExperts,
    /// Brings the pairs to the device.
    UploadPairs { n_pairs: usize },
    /// Computes experts on the host, and brings the outcome to the device.
    HostExperts { n: usize },
    /// Brings the scores of the tokens to the host.
    DownloadLogits { n: usize },
}

/// How a step is issued: live, with time measured, or into a graph, where parts can
/// be left out.
#[derive(Debug, Clone, Copy, PartialEq, Eq)]
pub struct Mode {
    pub live: bool,
    pub skip_attn: bool,
    pub skip_dense: bool,
    pub skip_moe: bool,
    pub skip_lm_head: bool,
}

/// A list of one operation, or of none.
pub open spec fn given(cond: bool, op: Op) -> Seq<Op> {
    if cond {
        seq![op]
    } else {
        seq![]
    }
}

impl Plan {
    /// From the residual stream to the outcome of attention.
    pub open spec fn attention(&self, l: int, n: usize, span: usize, mode: Mode) -> Seq<Op> {
        let s = self.layers@[l];
        let layer = l as usize;
        let value_at = (s.q_rows + s.kv_dim) as usize;
        let heads = self.n_heads;
        let kv_heads = s.kv_heads;
        let rows = Buf::Rows(s.qkv_rows);
        given(mode.live, Op::StartLap) + seq![
            Op::RmsNorm { src: Buf::Residual, norm: Norm::Attn(layer), dst: Buf::Normed, n },
            Op::Quantize { src: Buf::Normed, dst: Buf::Quants(HIDDEN), k: HIDDEN, n },
        ] + given(
            !mode.skip_dense,
            Op::Gemv {
                matrix: Matrix::Qkv(layer),
                x: Buf::Quants(HIDDEN),
                y: rows,
                n_rows: s.qkv_rows,
                k: HIDDEN,
                n,
            },
        ) + seq![
            Op::NormHeads { layer, section: Section::Query, offset: 0, heads, n },
            Op::NormHeads { layer, section: Section::Key, offset: s.q_rows, heads: kv_heads, n },
            Op::NormHeads { layer, section: Section::Value, offset: value_at, heads: kv_heads, n },
            Op::RopeHeads { layer, offset: 0, heads, n },
            Op::RopeHeads { layer, offset: s.q_rows, heads: kv_heads, n },
            Op::AppendKv { layer, pool: Buf::Keys(layer), offset: s.q_rows, n },
            Op::AppendKv { layer, pool: Buf::Values(layer), offset: value_at, n },
            Op::GatherQueries { layer, n },
        ] + given(!mode.skip_attn, Op::Attend { layer, span, n }) + given(
            mode.live,
            Op::Lap(Phase::Attn),
        )
    }

    /// From the outcome of attention back to the residual stream.
    pub open spec fn projection(&self, l: int, n: usize, mode: Mode) -> Seq<Op> {
        let s = self.layers@[l];
        let layer = l as usize;
        seq![Op::Quantize { src: Buf::Attended, dst: Buf::Quants(s.q_rows), k: s.q_rows, n }]
            + given(
            !mode.skip_dense,
            Op::Gemv {
                matrix: Matrix::Out(layer),
                x: Buf::Quants(s.q_rows),
                y: Buf::Rows(HIDDEN),
                n_rows: HIDDEN,
                k: s.q_rows,
                n,
            },
        ) + seq![
            Op::RmsNorm {
                src: Buf::Rows(HIDDEN),
                norm: Norm::PostAttn(layer),
                dst: Buf::Normed,
                n,
            },
            Op::Add { dst: Buf::Residual, src: Buf::Normed, n },
        ] + given(mode.live, Op::Lap(Phase::OutGemv))
    }

    /// The shared branch, and the scores of the experts.
    pub open spec fn shared_branch(&self, l: int, n: usize, mode: Mode) -> Seq<Op> {
        let layer = l as usize;
        let width = (2 * self.ffn) as usize;
        seq![
            Op::RmsNorm { src: Buf::Residual, norm: Norm::Ffn(layer), dst: Buf::SharedIn, n },
            Op::RmsNorm { src: Buf::Residual, norm: Norm::PreRouted(layer), dst: Buf::RoutedIn, n },
            Op::Quantize { src: Buf::SharedIn, dst: Buf::SharedQ8, k: HIDDEN, n },
        ] + given(
            !mode.skip_dense,
            Op::Gemv {
                matrix: Matrix::GateUp(layer),
                x: Buf::SharedQ8,
                y: Buf::Rows(width),
                n_rows: width,
                k: HIDDEN,
                n,
            },
        ) + seq![
            Op::Gelu { src: Buf::Rows(width), dst: Buf::SharedActs, inter: self.ffn, n },
            Op::Quantize { src: Buf::SharedActs, dst: Buf::Quants(self.ffn), k: self.ffn, n },
        ] + given(
            !mode.skip_dense,
            Op::Gemv {
                matrix: Matrix::Down(layer),
                x: Buf::Quants(self.ffn),
                y: Buf::Rows(HIDDEN),
                n_rows: HIDDEN,
                k: self.ffn,
                n,
            },
        ) + seq![
            Op::RmsNorm { src: Buf::Residual, norm: Norm::Plain, dst: Buf::Normed, n },
            Op::RouterGemv { layer, n },
        ] + given(mode.live, Op::Lap(Phase::SharedMlp))
    }

    /// The experts of `n_pairs` pairs, and the sum over each sequence's pairs.
    pub open spec fn pair_stage(&self, n_pairs: usize, n: usize) -> Seq<Op> {
        let width = (2 * self.moe_inter) as usize;
        seq![
            Op::GemvPairs {
                offset: 0,
                index: Buf::PairIndex,
                x: Buf::RoutedQ8,
                x_rows: n,
                y: Buf::PairGateUp,
                n_rows: width,
                k: HIDDEN,
                n_pairs,
            },
            Op::Gelu { src: Buf::PairGateUp, dst: Buf::PairActs, inter: self.moe_inter, n: n_pairs },
            Op::Quantize {
                src: Buf::PairActs,
                dst: Buf::PairActsQ8,
                k: self.moe_inter,
                n: n_pairs,
            },
            Op::GemvPairs {
                offset: self.gate_up_bytes,
                index: Buf::Identity,
                x: Buf::PairActsQ8,
                x_rows: n_pairs,
                y: Buf::PairDown,
                n_rows: HIDDEN,
                k: self.moe_inter,
                n_pairs,
            },
            Op::ReducePairs { n_pairs, n },
        ]
    }

    /// The routed experts, chosen on the device.
    pub open spec fn device_experts(&self, l: int, n: usize, mode: Mode) -> Seq<Op> {
        let layer = l as usize;
        let entries = (n * self.topk) as usize;
        seq![
            Op::Quantize { src: Buf::RoutedIn, dst: Buf::RoutedQ8, k: HIDDEN, n },
            Op::TopK { layer, n },
        ] + given(mode.live, Op::Lap(Phase::Router)) + given(mode.live, Op::WaitPending) + seq![
            Op::Admit { layer, entries },
            Op::Fork,
            Op::Promote { entries },
            Op::Join,
        ] + given(mode.live, Op::Lap(Phase::Embed)) + seq![Op::ClearRouted { n }] + if mode.skip_moe {
            seq![]
        } else {
            self.pair_stage(entries, n)
        } + seq![Op::Combine { layer, n }] + given(mode.live, Op::Lap(Phase::Moe))
    }

    /// What comes before the host chooses the experts.
    pub open spec fn host_choice(&self, n: usize) -> Seq<Op> {
        seq![Op::DownloadRouter { n }]
    }

    /// The routed experts, chosen on the host: `n_pairs` pairs for the device, and
    /// perhaps some for the host.
    pub open spec fn host_experts(
        &self,
        l: int,
        n: usize,
        n_pairs: usize,
        any_host: bool,
    ) -> Seq<Op> {
        let layer = l as usize;
        seq![
            Op::Lap(Phase::Router),
            Op::Quantize { src: Buf::RoutedIn, dst: Buf::RoutedQ8, k: HIDDEN, n },
            Op::WaitPending,
            Op::FetchExperts,
            Op::ClearRouted { n },
        ] + if n_pairs > 0 {
            seq![Op::UploadPairs { n_pairs }] + self.pair_stage(n_pairs, n)
        } else {
            seq![]
        } + if any_host {
            seq![
                Op::HostExperts { n },
                Op::Add { dst: Buf::RoutedOut, src: Buf::SharedIn, n },
            ]
        } else {
            seq![]
        } + seq![Op::Combine { layer, n }, Op::Lap(Phase::Moe)]
    }

    /// One layer up to the routed experts.
    pub open spec fn front(&self, l: int, n: usize, span: usize, mode: Mode) -> Seq<Op> {
        self.attention(l, n, span, mode) + self.projection(l, n, mode) + self.shared_branch(
            l,
            n,
            mode,
        )
    }

    /// The first `l` layers, with experts chosen on the device.
    pub open spec fn layers_upto(&self, l: int, n: usize, span: usize, mode: Mode) -> Seq<Op>
        decreases l,
    {
        if l <= 0 {
            seq![]
        } else {
            self.layers_upto(l - 1, n, span, mode) + self.front(l - 1, n, span, mode)
                + self.device_experts(l - 1, n, mode)
        }
    }

    /// From the residual stream to the scores of the tokens.
    pub open spec fn tail(&self, n: usize, mode: Mode) -> Seq<Op> {
        seq![
            Op::RmsNorm { src: Buf::Residual, norm: Norm::Final, dst: Buf::Normed, n },
            Op::Quantize { src: Buf::Normed, dst: Buf::SharedQ8, k: HIDDEN, n },
        ] + given(
            !mode.skip_lm_head,
            Op::Gemv {
                matrix: Matrix::LmHead,
                x: Buf::SharedQ8,
                y: Buf::Logits,
                n_rows: self.vocab,
                k: HIDDEN,
                n,
            },
        ) + given(mode.live, Op::Lap(Phase::Combine))
    }

    /// What becomes of the scores of the tokens: the next tokens, or the scores
    /// themselves.
    pub open spec fn finish(&self, n: usize, sample: bool) -> Seq<Op> {
        seq![
            if sample {
                Op::Sample { n }
            } else {
                Op::DownloadLogits { n }
            },
        ]
    }

    /// A whole step with experts chosen on the device, to be captured in a graph.
    pub open spec fn stack(&self, n: usize, mode: Mode) -> Seq<Op> {
        self.layers_upto(self.layers@.len() as int, n, self.max_seq, mode) + seq![Op::WaitPending]
            + self.tail(n, mode) + self.finish(n, true)
    }

    /// Sizes that a step for `n` sequences needs fit the machine.
    pub open spec fn step_fits(&self, n: usize) -> bool {
        n * self.topk <= usize::MAX
    }

    fn push_attention(&self, ops: &mut Vec<Op>, l: usize, n: usize, span: usize, mode: Mode)
        requires
            self.wf(),
            l < self.layers@.len(),
        ensures
            final(ops)@ == old(ops)@ + self.attention(l as int, n, span, mode),
    {
        let s: LayerShape = self.layers[l];
        let layer: usize = l;
        let value_at: usize = s.q_rows + s.kv_dim;
        let heads: usize = self.n_heads;
        let kv_heads: usize = s.kv_heads;
        let rows = Buf::Rows(s.qkv_rows);
        if mode.live {
            ops.push(Op::StartLap);
        }
        ops.push(Op::RmsNorm { src: Buf::Residual, norm: Norm::Attn(layer), dst: Buf::Normed, n });
        ops.push(Op::Quantize { src: Buf::Normed, dst: Buf::Quants(HIDDEN), k: HIDDEN, n });
        if !mode.skip_dense {
            ops.push(
                Op::Gemv {
                    matrix: Matrix::Qkv(layer),
                    x: Buf::Quants(HIDDEN),
                    y: rows,
                    n_rows: s.qkv_rows,
                    k: HIDDEN,
                    n,
                },
            );
        }
        ops.push(Op::NormHeads { layer, section: Section::Query, offset: 0, heads, n });
        ops.push(
            Op::NormHeads { layer, section: Section::Key, offset: s.q_rows, heads: kv_heads, n },
        );
        ops.push(
            Op::NormHeads { layer, section: Section::Value, offset: value_at, heads: kv_heads, n },
        );
        ops.push(Op::RopeHeads { layer, offset: 0, heads, n });
        ops.push(Op::RopeHeads { layer, offset: s.q_rows, heads: kv_heads, n });
        ops.push(Op::AppendKv { layer, pool: Buf::Keys(layer), offset: s.q_rows, n });
        ops.push(Op::AppendKv { layer, pool: Buf::Values(layer), offset: value_at, n });
        ops.push(Op::GatherQueries { layer, n });
        if !mode.skip_attn {
            ops.push(Op::Attend { layer, span, n });
        }
        if mode.live {
            ops.push(Op::Lap(Phase::Attn));
        }
        assert(ops@ =~= old(ops)@ + self.attention(l as int, n, span, mode));
    }

    fn push_projection(&self, ops: &mut Vec<Op>, l: usize, n: usize, mode: Mode)
        requires
            self.wf(),
            l < self.layers@.len(),
        ensures
            final(ops)@ == old(ops)@ + self.projection(l as int, n, mode),
    {
        let s: LayerShape = self.layers[l];
        ops.push(
            Op::Quantize { src: Buf::Attended, dst: Buf::Quants(s.q_rows), k: s.q_rows, n },
        );
        if !mode.skip_dense {
            ops.push(
                Op::Gemv {
                    matrix: Matrix::Out(l),
                    x: Buf::Quants(s.q_rows),
                    y: Buf::Rows(HIDDEN),
                    n_rows: HIDDEN,
                    k: s.q_rows,
                    n,
                },
            );
        }
        ops.push(
            Op::RmsNorm { src: Buf::Rows(HIDDEN), norm: Norm::PostAttn(l), dst: Buf::Normed, n },
        );
        ops.push(Op::Add { dst: Buf::Residual, src: Buf::Normed, n });
        if mode.live {
            ops.push(Op::Lap(Phase::OutGemv));
        }
        assert(ops@ =~= old(ops)@ + self.projection(l as int, n, mode));
    }

    fn push_shared_branch(&self, ops: &mut Vec<Op>, l: usize, n: usize, mode: Mode)
        requires
            self.wf(),
            l < self.layers@.len(),
        ensures
            final(ops)@ == old(ops)@ + self.shared_branch(l as int, n, mode),
    {
        let width: usize = 2 * self.ffn;
        ops.push(Op::RmsNorm { src: Buf::Residual, norm: Norm::Ffn(l), dst: Buf::SharedIn, n });
        ops.push(
            Op::RmsNorm { src: Buf::Residual, norm: Norm::PreRouted(l), dst: Buf::RoutedIn, n },
        );
        ops.push(Op::Quantize { src: Buf::SharedIn, dst: Buf::SharedQ8, k: HIDDEN, n });
        if !mode.skip_dense {
            ops.push(
                Op::Gemv {
                    matrix: Matrix::GateUp(l),
                    x: Buf::SharedQ8,
                    y: Buf::Rows(width),
                    n_rows: width,
                    k: HIDDEN,
                    n,
                },
            );
        }
        ops.push(Op::Gelu { src: Buf::Rows(width), dst: Buf::SharedActs, inter: self.ffn, n });
        ops.push(
            Op::Quantize { src: Buf::SharedActs, dst: Buf::Quants(self.ffn), k: self.ffn, n },
        );
        if !mode.skip_dense {
            ops.push(
                Op::Gemv {
                    matrix: Matrix::Down(l),
                    x: Buf::Quants(self.ffn),
                    y: Buf::Rows(HIDDEN),
                    n_rows: HIDDEN,
                    k: self.ffn,
                    n,
                },
            );
        }
        ops.push(Op::RmsNorm { src: Buf::Residual, norm: Norm::Plain, dst: Buf::Normed, n });
        ops.push(Op::RouterGemv { layer: l, n });
        if mode.live {
            ops.push(Op::Lap(Phase::SharedMlp));
        }
        assert(ops@ =~= old(ops)@ + self.shared_branch(l as int, n, mode));
    }

    fn push_pair_stage(&self, ops: &mut Vec<Op>, n_pairs: usize, n: usize)
        requires
            self.wf(),
        ensures
            final(ops)@ == old(ops)@ + self.pair_stage(n_pairs, n),
    {
        let width: usize = 2 * self.moe_inter;
        ops.push(
            Op::GemvPairs {
                offset: 0,
                index: Buf::PairIndex,
                x: Buf::RoutedQ8,
                x_rows: n,
                y: Buf::PairGateUp,
                n_rows: width,
                k: HIDDEN,
                n_pairs,
            },
        );
        ops.push(
            Op::Gelu { src: Buf::PairGateUp, dst: Buf::PairActs, inter: self.moe_inter, n: n_pairs },
        );
        ops.push(
            Op::Quantize {
                src: Buf::PairActs,
                dst: Buf::PairActsQ8,
                k: self.moe_inter,
                n: n_pairs,
            },
        );
        ops.push(
            Op::GemvPairs {
                offset: self.gate_up_bytes,
                index: Buf::Identity,
                x: Buf::PairActsQ8,
                x_rows: n_pairs,
                y: Buf::PairDown,
                n_rows: HIDDEN,
                k: self.moe_inter,
                n_pairs,
            },
        );
        ops.push(Op::ReducePairs { n_pairs, n });
        assert(ops@ =~= old(ops)@ + self.pair_stage(n_pairs, n));
    }

    fn push_device_experts(&self, ops: &mut Vec<Op>, l: usize, n: usize, mode: Mode)
        requires
            self.wf(),
            l < self.layers@.len(),
            self.step_fits(n),
        ensures
            final(ops)@ == old(ops)@ + self.device_experts(l as int, n, mode),
    {
        let entries: usize = n * self.topk;
        ops.push(Op::Quantize { src: Buf::RoutedIn, dst: Buf::RoutedQ8, k: HIDDEN, n });
        ops.push(Op::TopK { layer: l, n });
        if mode.live {
            ops.push(Op::Lap(Phase::Router));
            ops.push(Op::WaitPending);
        }
        ops.push(Op::Admit { layer: l, entries });
        ops.push(Op::Fork);
        ops.push(Op::Promote { entries });
        ops.push(Op::Join);
        if mode.live {
            ops.push(Op::Lap(Phase::Embed));
        }
        ops.push(Op::ClearRouted { n });
        if !mode.skip_moe {
            self.push_pair_stage(ops, entries, n);
        }
        ops.push(Op::Combine { layer: l, n });
        if mode.live {
            ops.push(Op::Lap(Phase::Moe));
        }
        assert(ops@ =~= old(ops)@ + self.device_experts(l as int, n, mode));
    }

    fn push_front(&self, ops: &mut Vec<Op>, l: usize, n: usize, span: usize, mode: Mode)
        requires
            self.wf(),
            l < self.layers@.len(),
        ensures
            final(ops)@ == old(ops)@ + self.front(l as int, n, span, mode),
    {
        self.push_attention(ops, l, n, span, mode);
        self.push_projection(ops, l, n, mode);
        self.push_shared_branch(ops, l, n, mode);
        assert(ops@ =~= old(ops)@ + self.front(l as int, n, span, mode));
    }

    fn push_layers(&self, ops: &mut Vec<Op>, n: usize, span: usize, mode: Mode)
        requires
            self.wf(),
            self.step_fits(n),
        ensures
            final(ops)@ == old(ops)@ + self.layers_upto(self.layers@.len() as int, n, span, mode),
    {
        let mut l: usize = 0;
        assert(ops@ =~= old(ops)@ + self.layers_upto(0, n, span, mode));
        while l < self.layers.len()
            invariant
                l <= self.layers@.len(),
                self.wf(),
                self.step_fits(n),
                ops@ == old(ops)@ + self.layers_upto(l as int, n, span, mode),
            decreases self.layers@.len() - l,
        {
            self.push_front(ops, l, n, span, mode);
            self.push_device_experts(ops, l, n, mode);
            assert(ops@ =~= old(ops)@ + self.layers_upto(l + 1, n, span, mode));
            l = l + 1;
        }
    }

    fn push_tail(&self, ops: &mut Vec<Op>, n: usize, mode: Mode)
        ensures
            final(ops)@ == old(ops)@ + self.tail(n, mode),
    {
        ops.push(Op::RmsNorm { src: Buf::Residual, norm: Norm::Final, dst: Buf::Normed, n });
        ops.push(Op::Quantize { src: Buf::Normed, dst: Buf::SharedQ8, k: HIDDEN, n });
        if !mode.skip_lm_head {
            ops.push(
                Op::Gemv {
                    matrix: Matrix::LmHead,
                    x: Buf::SharedQ8,
                    y: Buf::Logits,
                    n_rows: self.vocab,
                    k: HIDDEN,
                    n,
                },
            );
        }
        if mode.live {
            ops.push(Op::Lap(Phase::Combine));
        }
        assert(ops@ =~= old(ops)@ + self.tail(n, mode));
    }

    /// A whole step with experts chosen on the device, to be captured in a graph.
    pub fn stack_ops(&self, n: usize, mode: Mode) -> (ops: Vec<Op>)
        requires
            self.wf(),
            self.step_fits(n),
        ensures
            ops@ == self.stack(n, mode),
    {
        let mut ops: Vec<Op> = Vec::new();
        self.push_layers(&mut ops, n, self.max_seq, mode);
        ops.push(Op::WaitPending);
        self.push_tail(&mut ops, n, mode);
        ops.push(Op::Sample { n });
        assert(ops@ =~= self.stack(n, mode));
        ops
    }

    /// All layers of a live step with experts chosen on the device.
    pub fn layer_ops(&self, n: usize, span: usize, mode: Mode) -> (ops: Vec<Op>)
        requires
            self.wf(),
            self.step_fits(n),
        ensures
            ops@ == self.layers_upto(self.layers@.len() as int, n, span, mode),
    {
        let mut ops: Vec<Op> = Vec::new();
        self.push_layers(&mut ops, n, span, mode);
        assert(ops@ =~= self.layers_upto(self.layers@.len() as int, n, span, mode));
        ops
    }

    /// One layer of a live step up to the point where the host chooses the experts.
    pub fn front_ops(&self, l: usize, n: usize, span: usize, mode: Mode) -> (ops: Vec<Op>)
        requires
            self.wf(),
            l < self.layers@.len(),
        ensures
            ops@ == self.front(l as int, n, span, mode) + self.host_choice(n),
    {
        let mut ops: Vec<Op> = Vec::new();
        self.push_front(&mut ops, l, n, span, mode);
        ops.push(Op::DownloadRouter { n });
        assert(ops@ =~= self.front(l as int, n, span, mode) + self.host_choice(n));
        ops
    }

    /// The rest of a layer once the host has chosen the experts.
    pub fn host_ops(&self, l: usize, n: usize, n_pairs: usize, any_host: bool) -> (ops: Vec<Op>)
        requires
            self.wf(),
            l < self.layers@.len(),
        ensures
            ops@ == self.host_experts(l as int, n, n_pairs, any_host),
    {
        let mut ops: Vec<Op> = Vec::new();
        ops.push(Op::Lap(Phase::Router));
        ops.push(Op::Quantize { src: Buf::RoutedIn, dst: Buf::RoutedQ8, k: HIDDEN, n });
        ops.push(Op::WaitPending);
        ops.push(Op::FetchExperts);
        ops.push(Op::ClearRouted { n });
        if n_pairs > 0 {
            ops.push(Op::UploadPairs { n_pairs });
            self.push_pair_stage(&mut ops, n_pairs, n);
        }
        if any_host {
            ops.push(Op::HostExperts { n });
            ops.push(Op::Add { dst: Buf::RoutedOut, src: Buf::SharedIn, n });
        }
        ops.push(Op::Combine { layer: l, n });
        ops.push(Op::Lap(Phase::Moe));
        assert(ops@ =~= self.host_experts(l as int, n, n_pairs, any_host));
        ops
    }

    /// The end of a live step.
    pub fn tail_ops(&self, n: usize, mode: Mode, sample: bool) -> (ops: Vec<Op>)
        ensures
            ops@ == self.tail(n, mode) + self.finish(n, sample),
    {
        let mut ops: Vec<Op> = Vec::new();
        self.push_tail(&mut ops, n, mode);
        if sample {
            ops.push(Op::Sample { n });
        } else {
            ops.push(Op::DownloadLogits { n });
        }
        assert(ops@ =~= self.tail(n, mode) + self.finish(n, sample));
        ops
    }
}

impl Op {
    /// The kernel that an operation calls, where it calls one.
    pub open spec fn kernel(self, plan: Plan) -> Option<Launch> {
        match self {
            Op::RmsNorm { src, norm, dst, n } => Some(Launch::Rows { n }),
            Op::Quantize { src, dst, k, n } => Some(
                Launch::QuantizeQ8 { k, n, q8_len: plan.size(dst) as usize },
            ),
            Op::Gemv { matrix, x, y, n_rows, k, n } => Some(
                Launch::GemvQ4r { n_rows, k, n_entries: n },
            ),
            Op::NormHeads { layer, section, offset, heads, n } => Some(
                Launch::NormHeads { n_seqs: n, heads },
            ),
            Op::RopeHeads { layer, offset, heads, n } => Some(
                Launch::RopeHeads { n_seqs: n, heads },
            ),
            Op::AppendKv { layer, pool, offset, n } => Some(
                Launch::Strips { dim: plan.layers@[layer as int].kv_dim, n },
            ),
            Op::GatherQueries { layer, n } => Some(
                Launch::Strips { dim: plan.layers@[layer as int].q_rows, n },
            ),
            Op::Attend { layer, span, n } => Some(
                Launch::AttnBatch { n_heads: plan.n_heads, n_seqs: n, max_ctx: span },
            ),
            Op::Add { dst, src, n } => Some(Launch::Strips { dim: HIDDEN, n }),
            Op::Gelu { src, dst, inter, n } => Some(Launch::FlatRows { inter, n }),
            Op::RouterGemv { layer, n } => Some(
                Launch::GemvRows { n_rows: plan.n_experts, n_seqs: n },
            ),
            Op::TopK { layer, n } => Some(
                Launch::Router { n_experts: plan.n_experts, topk: plan.topk, n_seqs: n },
            ),
            Op::Admit { layer, entries } => Some(Launch::Admit { n_entries: entries }),
            Op::Promote { entries } => Some(Launch::Promote { n_entries: entries }),
            Op::GemvPairs { offset, index, x, x_rows, y, n_rows, k, n_pairs } => Some(
                Launch::GemvQ4r { n_rows, k, n_entries: n_pairs },
            ),
            Op::ReducePairs { n_pairs, n } => Some(Launch::Strips { dim: HIDDEN, n }),
            Op::Combine { layer, n } => Some(Launch::Combine { dim: HIDDEN, n }),
            Op::Sample { n } => Some(Launch::Sample { n_seqs: n }),
            _ => None,
        }
    }

    /// The operation is on layers that there are and on a buffer that fits the
    /// machine.
    pub open spec fn placed(self, plan: Plan) -> bool {
        match self {
            Op::Quantize { src, dst, k, n } => plan.has(dst) && plan.size(dst) <= usize::MAX,
            Op::AppendKv { layer, pool, offset, n } => layer < plan.layers@.len(),
            Op::GatherQueries { layer, n } => layer < plan.layers@.len(),
            _ => true,
        }
    }

    /// The kernel that an operation calls, where it calls one.
    pub fn launch(&self, plan: &Plan) -> (r: Option<Launch>)
        requires
            plan.wf(),
            self.placed(*plan),
        ensures
            r == self.kernel(*plan),
    {
        match *self {
            Op::RmsNorm { n, .. } => Some(Launch::Rows { n }),
            Op::Quantize { dst, k, n, .. } => match plan.capacity(dst) {
                Some(q8_len) => Some(Launch::QuantizeQ8 { k, n, q8_len }),
                None => None,
            },
            Op::Gemv { n_rows, k, n, .. } => Some(Launch::GemvQ4r { n_rows, k, n_entries: n }),
            Op::NormHeads { heads, n, .. } => Some(Launch::NormHeads { n_seqs: n, heads }),
            Op::RopeHeads { heads, n, .. } => Some(Launch::RopeHeads { n_seqs: n, heads }),
            Op::AppendKv { layer, n, .. } => Some(
                Launch::Strips { dim: plan.layers[layer].kv_dim, n },
            ),
            Op::GatherQueries { layer, n } => Some(
                Launch::Strips { dim: plan.layers[layer].q_rows, n },
            ),
            Op::Attend { span, n, .. } => Some(
                Launch::AttnBatch { n_heads: plan.n_heads, n_seqs: n, max_ctx: span },
            ),
            Op::Add { n, .. } => Some(Launch::Strips { dim: HIDDEN, n }),
            Op::Gelu { inter, n, .. } => Some(Launch::FlatRows { inter, n }),
            Op::RouterGemv { n, .. } => Some(
                Launch::GemvRows { n_rows: plan.n_experts, n_seqs: n },
            ),
            Op::TopK { n, .. } => Some(
                Launch::Router { n_experts: plan.n_experts, topk: plan.topk, n_seqs: n },
            ),
            Op::Admit { entries, .. } => Some(Launch::Admit { n_entries: entries }),
            Op::Promote { entries } => Some(Launch::Promote { n_entries: entries }),
            Op::GemvPairs { n_rows, k, n_pairs, .. } => Some(
                Launch::GemvQ4r { n_rows, k, n_entries: n_pairs },
            ),
            Op::ReducePairs { n, .. } => Some(Launch::Strips { dim: HIDDEN, n }),
            Op::Combine { n, .. } => Some(Launch::Combine { dim: HIDDEN, n }),
            Op::Sample { n } => Some(Launch::Sample { n_seqs: n }),
            _ => None,
        }
    }
}

} // verus!
