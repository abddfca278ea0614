//! The shapes of a model on the device: the layers, and the buffers of a decode
//! step.

use crate::config::{Config, HIDDEN};
use crate::expert_bank::ExpertShape;
use vstd::prelude::*;

verus! {

/// Why a model cannot be laid out.
#[derive(Debug, Clone, Copy, PartialEq, Eq)]
pub enum PlanError {
    /// A per-layer table is shorter than the number of layers.
    ShortTable,
    /// A layer has no key-value heads.
    NoKvHeads,
    /// A matrix has no columns, or its rows are not made of whole blocks.
    RaggedRow,
    /// A size does not fit the machine.
    TooLarge,
}

/// The shape of a layer's attention.
#[derive(Debug, Clone, Copy, PartialEq, Eq)]
pub struct LayerShape {
    /// Whether attention is limited to a window.
    pub swa: bool,
    pub head_dim: usize,
    pub kv_heads: usize,
    /// Rows of the query matrix.
    pub q_rows: usize,
    /// Rows of the key matrix, and of the value matrix.
    pub kv_dim: usize,
    /// Rows of all three.
    pub qkv_rows: usize,
    /// Query heads for each key-value head.
    pub group: usize,
    /// Positions that attention is limited to, 0 for all.
    pub window: usize,
}

/// The shapes of a model.
pub struct Plan {
    pub layers: Vec<LayerShape>,
    pub n_heads: usize,
    pub head_dim_full: usize,
    pub ffn: usize,
    pub n_experts: usize,
    pub topk: usize,
    pub moe_inter: usize,
    pub vocab: usize,
    pub max_seq: usize,
    pub max_batch: usize,
    /// Slots of the expert cache.
    pub cache_slots: usize,
    /// Bytes of an expert, and how many of them are its gate-and-up matrix.
    pub expert_bytes: usize,
    pub gate_up_bytes: usize,
}

/// A buffer of a decode step.
#[derive(Debug, Clone, Copy, PartialEq, Eq, Hash)]
pub enum Buf {
    /// The residual stream.
    Residual,
    /// The normed residual stream.
    Normed,
    /// The outcome of attention.
    Attended,
    /// The input of the shared feed-forward branch.
    SharedIn,
    /// The input of the routed experts.
    RoutedIn,
    /// The queries.
    Queries,
    /// Rows of the given width.
    Rows(usize),
    /// Quantized activations of the given width.
    Quants(usize),
    /// The quantized input of the shared branch, and of the last matrix.
    SharedQ8,
    /// The quantized input of the routed experts.
    RoutedQ8,
    /// The activations of the shared branch.
    SharedActs,
    /// The scores of the tokens.
    Logits,
    /// The scores of the experts.
    RouterLogits,
    /// Gate and up rows of each pair of sequence and expert.
    PairGateUp,
    /// Activations of each pair.
    PairActs,
    /// Quantized activations of each pair.
    PairActsQ8,
    /// Outcome of each pair.
    PairDown,
    /// The sum over each sequence's pairs.
    RoutedOut,
    /// The weight of each pair.
    PairWeights,
    /// The sequence of each pair.
    PairSeqs,
    /// The activation row that each pair reads.
    PairIndex,
    /// The address of each pair's expert.
    PairBases,
    /// The numbers from 0 on.
    Identity,
    /// Zeros.
    Zeros,
    /// The experts that each sequence is routed to.
    Choices,
    /// The experts to copy.
    PromoteFrom,
    /// The slots to copy them into.
    PromoteTo,
    /// The position of each sequence.
    Positions,
    /// The batch slot of each sequence.
    Slots,
    /// The sampling temperature of each sequence.
    Temps,
    /// The random state of each batch slot.
    Seeds,
    /// The next token of each sequence.
    Tokens,
    /// The keys of a layer.
    Keys(usize),
    /// The values of a layer.
    Values(usize),
}

/// The shape of layer `l`.
pub open spec fn layer_shape(cfg: Config, l: int) -> LayerShape {
    let head_dim = cfg.head_width(l);
    let q_rows = cfg.n_heads * head_dim;
    let kv_dim = cfg.kv_heads@[l] * head_dim;
    LayerShape {
        swa: cfg.swa@[l],
        head_dim,
        kv_heads: cfg.kv_heads@[l],
        q_rows: q_rows as usize,
        kv_dim: kv_dim as usize,
        qkv_rows: (q_rows + 2 * kv_dim) as usize,
        group: (cfg.n_heads / cfg.kv_heads@[l]) as usize,
        window: if cfg.swa@[l] {
            cfg.window
        } else {
            0
        },
    }
}

/// The rows of layer `l` fit the machine.
pub open spec fn layer_fits(cfg: Config, l: int) -> bool {
    cfg.n_heads * cfg.head_width(l) + 2 * (cfg.kv_heads@[l] * cfg.head_width(l)) <= usize::MAX
}

/// What is wrong with layer `l`.
pub open spec fn layer_error(cfg: Config, l: int) -> Option<PlanError> {
    if l >= cfg.kv_heads@.len() || l >= cfg.swa@.len() {
        Some(PlanError::ShortTable)
    } else if cfg.kv_heads@[l] == 0 {
        Some(PlanError::NoKvHeads)
    } else if !layer_fits(cfg, l) {
        Some(PlanError::TooLarge)
    } else if layer_shape(cfg, l).q_rows == 0 || layer_shape(cfg, l).q_rows % 32 != 0 {
        Some(PlanError::RaggedRow)
    } else {
        None
    }
}

/// What is wrong with the first bad one of the first `n` layers.
pub open spec fn layers_error(cfg: Config, n: int) -> Option<PlanError>
    decreases n,
{
    if n <= 0 {
        None
    } else {
        match layers_error(cfg, n - 1) {
            Some(e) => Some(e),
            None => layer_error(cfg, n - 1),
        }
    }
}

/// The shape of the experts.
pub open spec fn expert_shape(cfg: Config) -> ExpertShape {
    ExpertShape {
        rows_in: (2 * cfg.moe_inter) as usize,
        k_in: HIDDEN,
        rows_out: HIDDEN,
        k_out: cfg.moe_inter,
    }
}

/// What keeps a model from being laid out.
pub open spec fn plan_error(cfg: Config) -> Option<PlanError> {
    match layers_error(cfg, cfg.n_layers as int) {
        Some(e) => Some(e),
        None => if cfg.ffn == 0 || cfg.ffn % 32 != 0 || cfg.moe_inter == 0 || cfg.moe_inter % 32
            != 0 {
            Some(PlanError::RaggedRow)
        } else if 2 * cfg.ffn > usize::MAX || 2 * cfg.moe_inter > usize::MAX || !expert_shape(
            cfg,
        ).wf() {
            Some(PlanError::TooLarge)
        } else {
            None
        },
    }
}

proof fn lemma_layers_error(cfg: Config, a: int, b: int)
    requires
        a <= b,
        layers_error(cfg, a) is Some,
    ensures
        layers_error(cfg, b) == layers_error(cfg, a),
    decreases b - a,
{
    if a < b {
        lemma_layers_error(cfg, a, b - 1);
    }
}

/// The product of the numbers, where it fits the machine.
pub open spec fn checked(n: int) -> Option<usize> {
    if n <= usize::MAX {
        Some(n as usize)
    } else {
        None
    }
}

fn product(a: usize, b: usize, c: usize) -> (r: Option<usize>)
    ensures
        r == checked(a * b * c),
{
    if a == 0 || b == 0 || c == 0 {
        assert(a * b * c == 0) by (nonlinear_arith)
            requires
                a == 0 || b == 0 || c == 0,
        ;
        return Some(0);
    }
    match a.checked_mul(b) {
        Some(ab) => ab.checked_mul(c),
        None => {
            assert(a * b * c >= a * b) by (nonlinear_arith)
                requires
                    a > 0,
                    b > 0,
                    c > 0,
            ;
            None
        },
    }
}

impl Plan {
    /// The plan is that of a model.
    pub open spec fn describes(&self, cfg: Config, max_batch: usize, cache_slots: usize) -> bool {
        &&& self.layers@ == Seq::new(cfg.n_layers as nat, |l: int| layer_shape(cfg, l))
        &&& self.n_heads == cfg.n_heads
        &&& self.head_dim_full == cfg.head_dim_full
        &&& self.ffn == cfg.ffn
        &&& self.n_experts == cfg.n_experts
        &&& self.topk == cfg.topk
        &&& self.moe_inter == cfg.moe_inter
        &&& self.vocab == cfg.vocab
        &&& self.max_seq == cfg.max_seq
        &&& self.max_batch == max_batch
        &&& self.cache_slots == cache_slots
        &&& self.expert_bytes == expert_shape(cfg).bytes()
        &&& self.gate_up_bytes == expert_shape(cfg).bytes_in()
    }

    /// The rows of every layer add up, rows of matrices are made of whole blocks,
    /// and widths fit the machine.
    pub open spec fn wf(&self) -> bool {
        &&& self.layers@.len() <= usize::MAX
        &&& forall|l: int|
            0 <= l < self.layers@.len() ==> {
                let s = #[trigger] self.layers@[l];
                &&& s.kv_heads > 0
                &&& s.q_rows == self.n_heads * s.head_dim
                &&& s.kv_dim == s.kv_heads * s.head_dim
                &&& s.qkv_rows == s.q_rows + 2 * s.kv_dim
                &&& s.group == self.n_heads / s.kv_heads
                &&& s.q_rows > 0
                &&& s.q_rows % 32 == 0
            }
        &&& self.ffn > 0
        &&& self.ffn % 32 == 0
        &&& self.moe_inter > 0
        &&& self.moe_inter % 32 == 0
        &&& 2 * self.ffn <= usize::MAX
        &&& 2 * self.moe_inter <= usize::MAX
        &&& self.experts().wf()
        &&& self.expert_bytes == self.experts().bytes()
        &&& self.gate_up_bytes == self.experts().bytes_in()
    }

    /// The shape of the experts.
    pub open spec fn experts(&self) -> ExpertShape {
        ExpertShape {
            rows_in: (2 * self.moe_inter) as usize,
            k_in: HIDDEN,
            rows_out: HIDDEN,
            k_out: self.moe_inter,
        }
    }

    /// Lays a model out for so many sequences at a time and so many cached experts.
    pub fn new(cfg: &Config, max_batch: usize, cache_slots: usize) -> (r: Result<Plan, PlanError>)
        ensures
            match plan_error(*cfg) {
                Some(e) => r is Err && r->Err_0 == e,
                None => r is Ok && r->Ok_0.describes(*cfg, max_batch, cache_slots)
                    && r->Ok_0.wf(),
            },
    {
        let mut layers: Vec<LayerShape> = Vec::new();
        let ghost all = Seq::new(cfg.n_layers as nat, |l: int| layer_shape(*cfg, l));
        let mut l: usize = 0;
        while l < cfg.n_layers
            invariant
                l <= cfg.n_layers,
                layers_error(*cfg, l as int) is None,
                all == Seq::new(cfg.n_layers as nat, |l: int| layer_shape(*cfg, l)),
                layers@ =~= all.take(l as int),
                forall|i: int|
                    0 <= i < l ==> {
                        let s = #[trigger] layers@[i];
                        &&& s.kv_heads > 0
                        &&& s.q_rows == cfg.n_heads * s.head_dim
                        &&& s.kv_dim == s.kv_heads * s.head_dim
                        &&& s.qkv_rows == s.q_rows + 2 * s.kv_dim
                        &&& s.group == cfg.n_heads / s.kv_heads
                        &&& s.q_rows > 0
                        &&& s.q_rows % 32 == 0
                    },
            decreases cfg.n_layers - l,
        {
            proof {
                if layer_error(*cfg, l as int) is Some {
                    lemma_layers_error(*cfg, l + 1, cfg.n_layers as int);
                }
            }
            if l >= cfg.kv_heads.len() || l >= cfg.swa.len() {
                return Err(PlanError::ShortTable);
            }
            let kv_heads: usize = cfg.kv_heads[l];
            if kv_heads == 0 {
                return Err(PlanError::NoKvHeads);
            }
            let head_dim: usize = cfg.head_dim(l);
            proof {
                assert(cfg.n_heads * head_dim >= 0) by (nonlinear_arith);
                assert(kv_heads * head_dim >= 0) by (nonlinear_arith);
            }
            let (q_rows, kv_dim) = match (
                cfg.n_heads.checked_mul(head_dim),
                kv_heads.checked_mul(head_dim),
            ) {
                (Some(q), Some(kv)) => (q, kv),
                _ => {
                    return Err(PlanError::TooLarge);
                },
            };
            let qkv_rows: usize = match q_rows.checked_add(kv_dim) {
                Some(qk) => match qk.checked_add(kv_dim) {
                    Some(v) => v,
                    None => {
                        return Err(PlanError::TooLarge);
                    },
                },
                None => {
                    return Err(PlanError::TooLarge);
                },
            };
            if q_rows == 0 || q_rows % 32 != 0 {
                return Err(PlanError::RaggedRow);
            }
            let swa: bool = cfg.swa[l];
            let s = LayerShape {
                swa,
                head_dim,
                kv_heads,
                q_rows,
                kv_dim,
                qkv_rows,
                group: cfg.n_heads / kv_heads,
                window: if swa {
                    cfg.window
                } else {
                    0
                },
            };
            assert(s == layer_shape(*cfg, l as int));
            layers.push(s);
            l = l + 1;
        }
        assert(layers@ =~= all);
        if cfg.ffn == 0 || cfg.ffn % 32 != 0 || cfg.moe_inter == 0 || cfg.moe_inter % 32 != 0 {
            return Err(PlanError::RaggedRow);
        }
        if cfg.ffn > usize::MAX / 2 || cfg.moe_inter > usize::MAX / 2 {
            return Err(PlanError::TooLarge);
        }
        let shape = ExpertShape {
            rows_in: 2 * cfg.moe_inter,
            k_in: HIDDEN,
            rows_out: HIDDEN,
            k_out: cfg.moe_inter,
        };
        let (expert_bytes, gate_up_bytes) = match shape.sizes() {
            Some(p) => p,
            None => {
                return Err(PlanError::TooLarge);
            },
        };
        Ok(
            Plan {
                layers,
                n_heads: cfg.n_heads,
                head_dim_full: cfg.head_dim_full,
                ffn: cfg.ffn,
                n_experts: cfg.n_experts,
                topk: cfg.topk,
                moe_inter: cfg.moe_inter,
                vocab: cfg.vocab,
                max_seq: cfg.max_seq,
                max_batch,
                cache_slots,
                expert_bytes,
                gate_up_bytes,
            },
        )
    }

    /// How many elements a buffer has: numbers, or bytes where it holds quantized
    /// activations.
    pub open spec fn size(&self, buf: Buf) -> int {
        let n = self.max_batch as int;
        let pairs = n * self.topk;
        match buf {
            Buf::Residual
            | Buf::Normed
            | Buf::SharedIn
            | Buf::RoutedIn
            | Buf::RoutedOut => n * HIDDEN,
            Buf::Attended | Buf::Queries => n * self.n_heads * self.head_dim_full,
            Buf::Rows(w) => n * w,
            Buf::Quants(w) => n * (w as int / 32) * 40,
            Buf::SharedQ8 | Buf::RoutedQ8 => n * (HIDDEN as int / 32) * 40,
            Buf::SharedActs => n * self.ffn,
            Buf::Logits => n * self.vocab,
            Buf::RouterLogits => n * self.n_experts,
            Buf::PairGateUp => pairs * (2 * self.moe_inter),
            Buf::PairActs => pairs * self.moe_inter,
            Buf::PairActsQ8 => pairs * (self.moe_inter as int / 32) * 40,
            Buf::PairDown => pairs * HIDDEN,
            Buf::PairWeights
            | Buf::PairSeqs
            | Buf::PairIndex
            | Buf::PairBases
            | Buf::Identity
            | Buf::Zeros
            | Buf::Choices
            | Buf::PromoteFrom
            | Buf::PromoteTo => pairs,
            Buf::Positions | Buf::Slots | Buf::Temps | Buf::Seeds | Buf::Tokens => n,
            Buf::Keys(l) | Buf::Values(l) => n * self.max_seq * self.layers@[l as int].kv_dim,
        }
    }

    /// The buffer belongs to a layer that there is.
    pub open spec fn has(&self, buf: Buf) -> bool {
        match buf {
            Buf::Keys(l) | Buf::Values(l) => l < self.layers@.len(),
            _ => true,
        }
    }

    /// How many elements a buffer has, where that fits the machine.
    pub fn capacity(&self, buf: Buf) -> (r: Option<usize>)
        requires
            self.wf(),
            self.has(buf),
        ensures
            r == checked(self.size(buf)),
    {
        let n: usize = self.max_batch;
        match buf {
            Buf::Residual
            | Buf::Normed
            | Buf::SharedIn
            | Buf::RoutedIn
            | Buf::RoutedOut => product(n, HIDDEN, 1),
            Buf::Attended | Buf::Queries => product(n, self.n_heads, self.head_dim_full),
            Buf::Rows(w) => product(n, w, 1),
            Buf::Quants(w) => product(n, w / 32, 40),
            Buf::SharedQ8 | Buf::RoutedQ8 => product(n, HIDDEN / 32, 40),
            Buf::SharedActs => product(n, self.ffn, 1),
            Buf::Logits => product(n, self.vocab, 1),
            Buf::RouterLogits => product(n, self.n_experts, 1),
            Buf::PairGateUp => product(n, self.topk, 2 * self.moe_inter),
            Buf::PairActs => product(n, self.topk, self.moe_inter),
            Buf::PairActsQ8 => {
                let blocks: usize = self.moe_inter / 32;
                proof {
                    let p = n * self.topk;
                    assert(p * blocks * 40 == p * (blocks * 40)) by (nonlinear_arith);
                }
                product(n, self.topk, blocks * 40)
            },
            Buf::PairDown => product(n, self.topk, HIDDEN),
            Buf::PairWeights
            | Buf::PairSeqs
            | Buf::PairIndex
            | Buf::PairBases
            | Buf::Identity
            | Buf::Zeros
            | Buf::Choices
            | Buf::PromoteFrom
            | Buf::PromoteTo => product(n, self.topk, 1),
            Buf::Positions | Buf::Slots | Buf::Temps | Buf::Seeds | Buf::Tokens => Some(n),
            Buf::Keys(l) | Buf::Values(l) => product(n, self.max_seq, self.layers[l].kv_dim),
        }
    }

    /// Bytes of the host bank of all layers, where that fits the machine.
    pub fn bank_bytes(&self) -> (r: Option<usize>)
        ensures
            r == checked(self.layers@.len() * self.n_experts * self.expert_bytes),
    {
        product(self.layers.len(), self.n_experts, self.expert_bytes)
    }

    /// Bytes of the slot cache, where that fits the machine.
    pub fn cache_bytes(&self) -> (r: Option<usize>)
        ensures
            r == checked(self.cache_slots * self.expert_bytes),
    {
        product(self.cache_slots, self.expert_bytes, 1)
    }

    /// The widths of the quantized activations that a step keeps, and of its rows.
    pub open spec fn widths(&self) -> (Seq<usize>, Seq<usize>) {
        (
            seq![HIDDEN, self.ffn] + Seq::new(
                self.layers@.len(),
                |l: int| self.layers@[l].q_rows,
            ),
            seq![HIDDEN, (2 * self.ffn) as usize] + Seq::new(
                self.layers@.len(),
                |l: int| self.layers@[l].qkv_rows,
            ),
        )
    }

    /// The widths of the quantized activations that a step keeps, and of its rows.
    /// A width may occur more than once.
    pub fn scratch_widths(&self) -> (r: (Vec<usize>, Vec<usize>))
        requires
            self.wf(),
        ensures
            r.0@ == self.widths().0,
            r.1@ == self.widths().1,
    {
        let mut quants: Vec<usize> = Vec::new();
        let mut rows: Vec<usize> = Vec::new();
        quants.push(HIDDEN);
        quants.push(self.ffn);
        rows.push(HIDDEN);
        rows.push(2 * self.ffn);
        let mut l: usize = 0;
        while l < self.layers.len()
            invariant
                l <= self.layers@.len(),
                quants@ =~= self.widths().0.take(2 + l),
                rows@ =~= self.widths().1.take(2 + l),
            decreases self.layers@.len() - l,
        {
            quants.push(self.layers[l].q_rows);
            rows.push(self.layers[l].qkv_rows);
            l = l + 1;
        }
        (quants, rows)
    }
}

} // verus!
