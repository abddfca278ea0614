//! Launch geometry of the device kernels: how many thread blocks of how many
//! threads a call takes, with how much shared memory, and which calls are refused.

use vstd::prelude::*;

verus! {

/// Bytes of a block of 32 activations on the device: a scale and a sum in single
/// precision, and 32 signed bytes.
pub const Q8_BLK: usize = 40;

/// Bytes of shared memory that attention scores may take.
pub const MAX_SCORE_BYTES: usize = 49152;

/// Why a kernel is not launched.
#[derive(Debug, Clone, Copy, PartialEq, Eq)]
pub enum LaunchError {
    /// A row is not made of whole blocks of weights.
    RaggedRow,
    /// A buffer is too short for what the kernel touches.
    ShortBuffer,
    /// A weight matrix has not the size of its rows.
    WrongMatrix,
    /// There is no position to attend to.
    EmptyContext,
    /// The attention scores do not fit in shared memory.
    ContextTooLong,
    /// There are more experts or choices than the router takes.
    TooManyExperts,
    /// A number does not fit the kernel's arguments.
    TooLarge,
}

/// The shape of a launch.
#[derive(Debug, Clone, Copy, PartialEq, Eq)]
pub struct Geometry {
    pub grid: (u32, u32, u32),
    pub block: u32,
    pub shared: u32,
}

/// A call of a kernel, with the numbers that decide its shape.
#[derive(Debug, Clone, Copy, PartialEq, Eq)]
pub enum Launch {
    /// A q4_0 matrix times a vector, one thread block per row.
    GemvQ4 { n_rows: usize, k: usize, w_len: usize },
    /// The q4_0 matrices of several experts times vectors.
    GemvGrouped {
        n_rows: usize,
        k: usize,
        n_experts: usize,
        slots_len: usize,
        y_len: usize,
        y_stride: usize,
    },
    /// The same over quantized activations.
    GemvGroupedQ8 {
        n_rows: usize,
        k: usize,
        n_experts: usize,
        slots_len: usize,
        y_len: usize,
        y_stride: usize,
    },
    /// The same with a list that says which activation each entry reads. The
    /// weights of an entry are found by its slot or by its address.
    GemvIndexedQ8 {
        n_rows: usize,
        k: usize,
        n_entries: usize,
        bases_len: usize,
        index_len: usize,
        y_len: usize,
        y_stride: usize,
    },
    /// The same over q4r matrices.
    GemvQ4r { n_rows: usize, k: usize, n_entries: usize },
    /// A q6_k matrix times a vector.
    GemvQ6k { n_rows: usize, k: usize, w_len: usize },
    /// A q6_k matrix times a quantized vector.
    GemvQ6kQ8 { n_rows: usize, k: usize, w_len: usize, q8_len: usize },
    /// A single-precision matrix times the vectors of several sequences.
    GemvRows { n_rows: usize, n_seqs: usize },
    /// Quantization of `n` vectors of `k` activations.
    QuantizeQ8 { k: usize, n: usize, q8_len: usize },
    /// Attention of one sequence to the positions of a range.
    AttnDecode { kv_start: usize, kv_end: usize, n_heads: usize },
    /// Attention of several sequences.
    AttnBatch { n_heads: usize, n_seqs: usize, max_ctx: usize },
    /// One thread block per row, with a reduction.
    Rows { n: usize },
    /// One thread block per head of each sequence, with a reduction.
    NormHeads { n_seqs: usize, heads: usize },
    /// One thread block per head of each sequence.
    RopeHeads { n_seqs: usize, heads: usize },
    /// One thread per element of a row, for `n` rows.
    Strips { dim: usize, n: usize },
    /// One thread per element.
    Flat { total: usize },
    /// One thread per element of `n` vectors of `inter` elements.
    FlatRows { inter: usize, n: usize },
    /// The choice of experts.
    Router { n_experts: usize, topk: usize, n_seqs: usize },
    /// The bookkeeping of the slot cache.
    Admit { n_entries: usize },
    /// The copies of experts into slots.
    Promote { n_entries: usize },
    /// The combination of both feed-forward branches.
    Combine { dim: usize, n: usize },
    /// The choice of tokens.
    Sample { n_seqs: usize },
}

/// How many parts of `unit` it takes to hold `n`.
pub open spec fn parts(n: int, unit: int) -> int {
    (n + unit - 1) / unit
}

/// The shape of a launch, with a shared memory size in bytes.
pub open spec fn shape(x: int, y: int, block: u32, shared: int) -> Result<Geometry, LaunchError> {
    if x <= u32::MAX && y <= u32::MAX && shared <= u32::MAX {
        Ok(Geometry { grid: (x as u32, y as u32, 1), block, shared: shared as u32 })
    } else {
        Err(LaunchError::TooLarge)
    }
}

impl Launch {
    /// What is wrong with a call.
    pub open spec fn refusal(self) -> Option<LaunchError> {
        match self {
            Launch::GemvQ4 { n_rows, k, w_len } => if k % 32 != 0 {
                Some(LaunchError::RaggedRow)
            } else if w_len != n_rows * (k as int / 32 * 18) {
                Some(LaunchError::WrongMatrix)
            } else {
                None
            },
            Launch::GemvGrouped { n_rows, k, n_experts, slots_len, y_len, y_stride }
            | Launch::GemvGroupedQ8 { n_rows, k, n_experts, slots_len, y_len, y_stride } => if k % 32
                != 0 {
                Some(LaunchError::RaggedRow)
            } else if slots_len < n_experts || y_len < n_experts * y_stride {
                Some(LaunchError::ShortBuffer)
            } else {
                None
            },
            Launch::GemvIndexedQ8 { n_rows, k, n_entries, bases_len, index_len, y_len, y_stride } =>
            if k % 32 != 0 {
                Some(LaunchError::RaggedRow)
            } else if bases_len < n_entries || index_len < n_entries || y_len < n_entries * y_stride {
                Some(LaunchError::ShortBuffer)
            } else {
                None
            },
            Launch::GemvQ4r { n_rows, k, n_entries } => if k % 32 != 0 {
                Some(LaunchError::RaggedRow)
            } else {
                None
            },
            Launch::GemvQ6k { n_rows, k, w_len } => if k % 256 != 0 {
                Some(LaunchError::RaggedRow)
            } else if w_len != n_rows * (k as int / 256 * 210) {
                Some(LaunchError::WrongMatrix)
            } else {
                None
            },
            Launch::GemvQ6kQ8 { n_rows, k, w_len, q8_len } => if k % 256 != 0 {
                Some(LaunchError::RaggedRow)
            } else if w_len != n_rows * (k as int / 256 * 210) {
                Some(LaunchError::WrongMatrix)
            } else if q8_len < k as int / 32 * 40 {
                Some(LaunchError::ShortBuffer)
            } else {
                None
            },
            Launch::QuantizeQ8 { k, n, q8_len } => if k % 32 != 0 {
                Some(LaunchError::RaggedRow)
            } else if q8_len < n * (k as int / 32 * 40) {
                Some(LaunchError::ShortBuffer)
            } else {
                None
            },
            Launch::AttnDecode { kv_start, kv_end, n_heads } => if kv_end <= kv_start {
                Some(LaunchError::EmptyContext)
            } else if (kv_end - kv_start) * 4 > MAX_SCORE_BYTES {
                Some(LaunchError::ContextTooLong)
            } else {
                None
            },
            Launch::AttnBatch { n_heads, n_seqs, max_ctx } => if max_ctx * 4 > MAX_SCORE_BYTES {
                Some(LaunchError::ContextTooLong)
            } else {
                None
            },
            Launch::Router { n_experts, topk, n_seqs } => if n_experts > 1024 || topk > 32 {
                Some(LaunchError::TooManyExperts)
            } else {
                None
            },
            _ => None,
        }
    }

    /// The shape of a call that is not refused.
    pub open spec fn outline(self) -> Result<Geometry, LaunchError> {
        match self {
            Launch::GemvQ4 { n_rows, k, w_len } => shape(n_rows as int, 1, 128, 0),
            Launch::GemvGrouped { n_rows, k, n_experts, slots_len, y_len, y_stride } => shape(
                parts(n_rows as int, 4),
                n_experts as int,
                128,
                k * 4,
            ),
            Launch::GemvGroupedQ8 { n_rows, k, n_experts, slots_len, y_len, y_stride } => shape(
                parts(n_rows as int, 4),
                n_experts as int,
                128,
                k as int / 32 * 40,
            ),
            Launch::GemvIndexedQ8 { n_rows, k, n_entries, bases_len, index_len, y_len, y_stride } =>
            shape(parts(n_rows as int, 4), n_entries as int, 128, k as int / 32 * 40),
            Launch::GemvQ4r { n_rows, k, n_entries } => shape(
                parts(n_rows as int, 8),
                n_entries as int,
                256,
                k as int / 32 * 40,
            ),
            Launch::GemvQ6k { n_rows, k, w_len } => shape(parts(n_rows as int, 4), 1, 128, k * 4),
            Launch::GemvQ6kQ8 { n_rows, k, w_len, q8_len } => shape(
                parts(n_rows as int, 16),
                1,
                128,
                k as int / 32 * 40,
            ),
            Launch::GemvRows { n_rows, n_seqs } => shape(n_rows as int, n_seqs as int, 128, 512),
            Launch::QuantizeQ8 { k, n, q8_len } => shape(
                parts(n * (k as int / 32) * 32, 256),
                1,
                256,
                0,
            ),
            Launch::AttnDecode { kv_start, kv_end, n_heads } => shape(
                n_heads as int,
                1,
                128,
                (kv_end - kv_start) * 4,
            ),
            Launch::AttnBatch { n_heads, n_seqs, max_ctx } => shape(
                n_heads as int,
                n_seqs as int,
                128,
                max_ctx * 4,
            ),
            Launch::Rows { n } => shape(n as int, 1, 128, 512),
            Launch::NormHeads { n_seqs, heads } => shape(n_seqs * heads, 1, 128, 512),
            Launch::RopeHeads { n_seqs, heads } => shape(n_seqs * heads, 1, 64, 0),
            Launch::Strips { dim, n } => shape(parts(dim as int, 256), n as int, 256, 0),
            Launch::Flat { total } => shape(parts(total as int, 256), 1, 256, 0),
            Launch::FlatRows { inter, n } => shape(parts(inter * n, 256), 1, 256, 0),
            Launch::Router { n_experts, topk, n_seqs } => shape(n_seqs as int, 1, 128, 0),
            Launch::Admit { n_entries } => shape(1, 1, 128, 0),
            Launch::Promote { n_entries } => shape(96, n_entries as int, 256, 0),
            Launch::Combine { dim, n } => shape(n as int, 1, 128, (128 + dim) * 4),
            Launch::Sample { n_seqs } => shape(n_seqs as int, 1, 256, 0),
        }
    }

    /// The shape of a call, or why it is refused.
    pub open spec fn plan(self) -> Result<Geometry, LaunchError> {
        match self.refusal() {
            Some(e) => Err(e),
            None => self.outline(),
        }
    }

    /// The shape of a call, or why it is refused.
    pub fn geometry(&self) -> (r: Result<Geometry, LaunchError>)
        ensures
            r == self.plan(),
    {
        match *self {
            Launch::GemvQ4 { n_rows, k, w_len } => {
                if k % 32 != 0 {
                    return Err(LaunchError::RaggedRow);
                }
                if !is_product(w_len, n_rows, k / 32 * 18) {
                    return Err(LaunchError::WrongMatrix);
                }
                shaped(n_rows as u128, 1, 128, 0)
            },
            Launch::GemvGrouped { n_rows, k, n_experts, slots_len, y_len, y_stride } => {
                if k % 32 != 0 {
                    return Err(LaunchError::RaggedRow);
                }
                if slots_len < n_experts || (y_len as u128) < wide(n_experts, y_stride) {
                    return Err(LaunchError::ShortBuffer);
                }
                shaped(parts_of(n_rows as u128, 4), n_experts as u128, 128, wide(k, 4))
            },
            Launch::GemvGroupedQ8 { n_rows, k, n_experts, slots_len, y_len, y_stride } => {
                if k % 32 != 0 {
                    return Err(LaunchError::RaggedRow);
                }
                if slots_len < n_experts || (y_len as u128) < wide(n_experts, y_stride) {
                    return Err(LaunchError::ShortBuffer);
                }
                shaped(parts_of(n_rows as u128, 4), n_experts as u128, 128, wide(k / 32, 40))
            },
            Launch::GemvIndexedQ8 { n_rows, k, n_entries, bases_len, index_len, y_len, y_stride } => {
                if k % 32 != 0 {
                    return Err(LaunchError::RaggedRow);
                }
                if bases_len < n_entries || index_len < n_entries || (y_len as u128) < wide(
                    n_entries,
                    y_stride,
                ) {
                    return Err(LaunchError::ShortBuffer);
                }
                shaped(parts_of(n_rows as u128, 4), n_entries as u128, 128, wide(k / 32, 40))
            },
            Launch::GemvQ4r { n_rows, k, n_entries } => {
                if k % 32 != 0 {
                    return Err(LaunchError::RaggedRow);
                }
                shaped(parts_of(n_rows as u128, 8), n_entries as u128, 256, wide(k / 32, 40))
            },
            Launch::GemvQ6k { n_rows, k, w_len } => {
                if k % 256 != 0 {
                    return Err(LaunchError::RaggedRow);
                }
                if !is_product(w_len, n_rows, k / 256 * 210) {
                    return Err(LaunchError::WrongMatrix);
                }
                shaped(parts_of(n_rows as u128, 4), 1, 128, wide(k, 4))
            },
            Launch::GemvQ6kQ8 { n_rows, k, w_len, q8_len } => {
                if k % 256 != 0 {
                    return Err(LaunchError::RaggedRow);
                }
                if !is_product(w_len, n_rows, k / 256 * 210) {
                    return Err(LaunchError::WrongMatrix);
                }
                if (q8_len as u128) < wide(k / 32, 40) {
                    return Err(LaunchError::ShortBuffer);
                }
                shaped(parts_of(n_rows as u128, 16), 1, 128, wide(k / 32, 40))
            },
            Launch::GemvRows { n_rows, n_seqs } => shaped(n_rows as u128, n_seqs as u128, 128, 512),
            Launch::QuantizeQ8 { k, n, q8_len } => {
                if k % 32 != 0 {
                    return Err(LaunchError::RaggedRow);
                }
                let blocks: u128 = wide(n, k / 32);
                proof {
                    let b = k as int / 32;
                    assert(n * (b * 40) == n * b * 40) by (nonlinear_arith);
                }
                if (q8_len as u128) / 40 < blocks {
                    return Err(LaunchError::ShortBuffer);
                }
                shaped(parts_of(blocks * 32, 256), 1, 256, 0)
            },
            Launch::AttnDecode { kv_start, kv_end, n_heads } => {
                if kv_end <= kv_start {
                    return Err(LaunchError::EmptyContext);
                }
                let bytes: u128 = wide(kv_end - kv_start, 4);
                if bytes > MAX_SCORE_BYTES as u128 {
                    return Err(LaunchError::ContextTooLong);
                }
                shaped(n_heads as u128, 1, 128, bytes)
            },
            Launch::AttnBatch { n_heads, n_seqs, max_ctx } => {
                let bytes: u128 = wide(max_ctx, 4);
                if bytes > MAX_SCORE_BYTES as u128 {
                    return Err(LaunchError::ContextTooLong);
                }
                shaped(n_heads as u128, n_seqs as u128, 128, bytes)
            },
            Launch::Rows { n } => shaped(n as u128, 1, 128, 512),
            Launch::NormHeads { n_seqs, heads } => shaped(wide(n_seqs, heads), 1, 128, 512),
            Launch::RopeHeads { n_seqs, heads } => shaped(wide(n_seqs, heads), 1, 64, 0),
            Launch::Strips { dim, n } => shaped(parts_of(dim as u128, 256), n as u128, 256, 0),
            Launch::Flat { total } => shaped(parts_of(total as u128, 256), 1, 256, 0),
            Launch::FlatRows { inter, n } => shaped(parts_of(wide(inter, n), 256), 1, 256, 0),
            Launch::Router { n_experts, topk, n_seqs } => {
                if n_experts > 1024 || topk > 32 {
                    return Err(LaunchError::TooManyExperts);
                }
                shaped(n_seqs as u128, 1, 128, 0)
            },
            Launch::Admit { n_entries } => shaped(1, 1, 128, 0),
            Launch::Promote { n_entries } => shaped(96, n_entries as u128, 256, 0),
            Launch::Combine { dim, n } => shaped(n as u128, 1, 128, (128 + dim as u128) * 4),
            Launch::Sample { n_seqs } => shaped(n_seqs as u128, 1, 256, 0),
        }
    }
}

/// The product of two numbers.
fn wide(a: usize, b: usize) -> (r: u128)
    ensures
        r == a * b,
        r <= usize::MAX * usize::MAX,
{
    assert(a * b <= usize::MAX * usize::MAX) by (nonlinear_arith)
        requires
            0 <= a <= usize::MAX,
            0 <= b <= usize::MAX,
    ;
    assert(usize::MAX * usize::MAX <= u128::MAX) by (nonlinear_arith)
        requires
            0 <= usize::MAX <= 0xFFFF_FFFF_FFFF_FFFF,
    ;
    a as u128 * b as u128
}

/// Whether a number is the product of two others.
fn is_product(n: usize, a: usize, b: usize) -> (r: bool)
    ensures
        r <==> n == a * b,
{
    n as u128 == wide(a, b)
}

/// How many parts of `unit` it takes to hold `n`.
fn parts_of(n: u128, unit: u128) -> (r: u128)
    requires
        0 < unit <= 256,
        n <= u128::MAX - 256,
    ensures
        r == parts(n as int, unit as int),
{
    (n + (unit - 1)) / unit
}

fn shaped(x: u128, y: u128, block: u32, shared: u128) -> (r: Result<Geometry, LaunchError>)
    ensures
        r == shape(x as int, y as int, block, shared as int),
{
    let limit: u128 = u32::MAX as u128;
    if x <= limit && y <= limit && shared <= limit {
        Ok(Geometry { grid: (x as u32, y as u32, 1), block, shared: shared as u32 })
    } else {
        Err(LaunchError::TooLarge)
    }
}

/// The parts of a launch cover everything, and none of them is empty.
pub proof fn parts_cover_everything(n: int, unit: int)
    requires
        0 <= n,
        0 < unit,
    ensures
        n <= parts(n, unit) * unit < n + unit,
{
    let m = n + unit - 1;
    vstd::arithmetic::div_mod::lemma_fundamental_div_mod(m, unit);
    vstd::arithmetic::div_mod::lemma_mod_bound(m, unit);
    assert(unit * (m / unit) == (m / unit) * unit) by (nonlinear_arith);
}

/// One thread per element: a launch over the elements of rows has a thread for each
/// element, and fewer than a thread block to spare.
pub proof fn strips_cover_their_rows(dim: usize, n: usize)
    requires
        (Launch::Strips { dim, n }).plan() is Ok,
    ensures
        ({
            let g = (Launch::Strips { dim, n }).plan()->Ok_0;
            &&& g.grid.1 == n
            &&& dim <= g.grid.0 * g.block < dim + g.block
        }),
{
    parts_cover_everything(dim as int, 256);
}

/// A launch of a matrix product in the q4r layout has a group of 32 threads for each
/// row of each entry.
pub proof fn products_cover_their_rows(n_rows: usize, k: usize, n_entries: usize)
    requires
        (Launch::GemvQ4r { n_rows, k, n_entries }).plan() is Ok,
    ensures
        ({
            let g = (Launch::GemvQ4r { n_rows, k, n_entries }).plan()->Ok_0;
            &&& g.grid.1 == n_entries
            &&& 32 * n_rows <= g.grid.0 * g.block < 32 * n_rows + g.block
        }),
{
    parts_cover_everything(n_rows as int, 8);
}

/// A launch that is not refused has threads for all its work, and no thread block without
/// any: of a matrix product 32 threads for each row of each entry, but 8 where 16 rows
/// share a thread block of 128, and a thread block where there is one for each row; of the
/// other kernels a thread or a thread block for each element, row, head or sequence.
pub proof fn launches_cover_their_work(launch: Launch)
    requires
        launch.plan() is Ok,
    ensures
        ({
            let g = launch.plan()->Ok_0;
            let threads = g.grid.0 * g.block;
            let covers = |work: int| work <= threads < work + g.block;
            &&& g.grid.2 == 1
            &&& g.block == match launch {
                Launch::GemvQ4r { .. }
                | Launch::QuantizeQ8 { .. }
                | Launch::Strips { .. }
                | Launch::Flat { .. }
                | Launch::FlatRows { .. }
                | Launch::Promote { .. }
                | Launch::Sample { .. } => 256u32,
                Launch::RopeHeads { .. } => 64u32,
                _ => 128u32,
            }
            &&& match launch {
                Launch::GemvQ4 { n_rows, k, w_len } => g.grid.0 == n_rows && g.grid.1 == 1,
                Launch::GemvGrouped { n_rows, k, n_experts, slots_len, y_len, y_stride } => covers(32 * n_rows) && g.grid.1 == n_experts && g.shared == 4 * k,
                Launch::GemvGroupedQ8 { n_rows, k, n_experts, slots_len, y_len, y_stride } => covers(32 * n_rows) && g.grid.1 == n_experts && 4 * g.shared == 5 * k,
                Launch::GemvIndexedQ8 {
                    n_rows,
                    k,
                    n_entries,
                    bases_len,
                    index_len,
                    y_len,
                    y_stride,
                } => covers(32 * n_rows) && g.grid.1 == n_entries && 4 * g.shared == 5 * k,
                Launch::GemvQ4r { n_rows, k, n_entries } => covers(32 * n_rows) && g.grid.1
                    == n_entries && 4 * g.shared == 5 * k,
                Launch::GemvQ6k { n_rows, k, w_len } => covers(32 * n_rows) && g.grid.1 == 1
                    && g.shared == 4 * k,
                Launch::GemvQ6kQ8 { n_rows, k, w_len, q8_len } => covers(8 * n_rows)
                    && g.grid.1 == 1 && 4 * g.shared == 5 * k,
                Launch::GemvRows { n_rows, n_seqs } => g.grid.0 == n_rows && g.grid.1 == n_seqs
                    && g.shared == 4 * g.block,
                Launch::QuantizeQ8 { k, n, q8_len } => covers(n * k) && g.grid.1 == 1,
                Launch::AttnDecode { kv_start, kv_end, n_heads } => g.grid.0 == n_heads && g.grid.1
                    == 1 && g.shared == 4 * (kv_end - kv_start),
                Launch::AttnBatch { n_heads, n_seqs, max_ctx } => g.grid.0 == n_heads && g.grid.1
                    == n_seqs && g.shared == 4 * max_ctx,
                Launch::Rows { n } => g.grid.0 == n && g.grid.1 == 1 && g.shared == 4 * g.block,
                Launch::NormHeads { n_seqs, heads } => g.grid.0 == n_seqs * heads && g.grid.1 == 1
                    && g.shared == 4 * g.block,
                Launch::RopeHeads { n_seqs, heads } => g.grid.0 == n_seqs * heads && g.grid.1 == 1,
                Launch::Strips { dim, n } => covers(dim as int) && g.grid.1 == n,
                Launch::Flat { total } => covers(total as int) && g.grid.1 == 1,
                Launch::FlatRows { inter, n } => covers(inter * n) && g.grid.1 == 1,
                Launch::Router { n_experts, topk, n_seqs } => g.grid.0 == n_seqs && g.grid.1 == 1,
                Launch::Admit { n_entries } => g.grid.0 == 1 && g.grid.1 == 1,
                Launch::Promote { n_entries } => g.grid.0 == 96 && g.grid.1 == n_entries,
                Launch::Combine { dim, n } => g.grid.0 == n && g.grid.1 == 1 && g.shared == 4 * (
                g.block + dim),
                Launch::Sample { n_seqs } => g.grid.0 == n_seqs && g.grid.1 == 1,
            }
        }),
{
    let g = launch.plan()->Ok_0;
    let (x, y) = (g.grid.0 as int, g.block as int);
    assert(y == 64 || y == 128 || y == 256);
    assert(y == 128 ==> x * y == 128 * x) by (nonlinear_arith);
    assert(y == 256 ==> x * y == 256 * x) by (nonlinear_arith);
    match launch {
        Launch::GemvGrouped { n_rows, k, n_experts, slots_len, y_len, y_stride } => {
            parts_cover_everything(n_rows as int, 4);
        },
        Launch::GemvGroupedQ8 { n_rows, k, n_experts, slots_len, y_len, y_stride } => {
            parts_cover_everything(n_rows as int, 4);
        },
        Launch::GemvIndexedQ8 { n_rows, k, n_entries, bases_len, index_len, y_len, y_stride } => {
            parts_cover_everything(n_rows as int, 4);
        },
        Launch::GemvQ4r { n_rows, k, n_entries } => {
            parts_cover_everything(n_rows as int, 8);
        },
        Launch::GemvQ6k { n_rows, k, w_len } => {
            parts_cover_everything(n_rows as int, 4);
        },
        Launch::GemvQ6kQ8 { n_rows, k, w_len, q8_len } => {
            parts_cover_everything(n_rows as int, 16);
        },
        Launch::QuantizeQ8 { k, n, q8_len } => {
            let b = k as int / 32;
            assert(n * b * 32 == n * k && 0 <= n * b * 32) by (nonlinear_arith)
                requires
                    k == 32 * b,
                    0 <= n,
                    0 <= b,
            ;
            parts_cover_everything(n * b * 32, 256);
        },
        Launch::Strips { dim, n } => {
            parts_cover_everything(dim as int, 256);
        },
        Launch::Flat { total } => {
            parts_cover_everything(total as int, 256);
        },
        Launch::FlatRows { inter, n } => {
            assert(0 <= inter * n) by (nonlinear_arith);
            parts_cover_everything(inter * n, 256);
        },
        Launch::NormHeads { n_seqs, heads } => {
            assert(0 <= n_seqs * heads) by (nonlinear_arith);
        },
        Launch::RopeHeads { n_seqs, heads } => {
            assert(0 <= n_seqs * heads) by (nonlinear_arith);
        },
        _ => {},
    }
}

/// A launch that is not refused has whole blocks in its rows, matrices of the size of
/// their rows, buffers that are long enough, and scores that fit in shared memory.
pub proof fn launches_have_what_they_need(launch: Launch)
    requires
        launch.plan() is Ok,
    ensures
        match launch {
            Launch::GemvQ4 { n_rows, k, w_len } => k % 32 == 0 && 32 * w_len == n_rows * k * 18,
            Launch::GemvGrouped { n_rows, k, n_experts, slots_len, y_len, y_stride } => k % 32 == 0
                && n_experts <= slots_len && n_experts * y_stride <= y_len,
            Launch::GemvGroupedQ8 { n_rows, k, n_experts, slots_len, y_len, y_stride } => k % 32
                == 0 && n_experts <= slots_len && n_experts * y_stride <= y_len,
            Launch::GemvIndexedQ8 {
                n_rows,
                k,
                n_entries,
                bases_len,
                index_len,
                y_len,
                y_stride,
            } => k % 32 == 0 && n_entries <= bases_len && n_entries <= index_len && n_entries
                * y_stride <= y_len,
            Launch::GemvQ4r { n_rows, k, n_entries } => k % 32 == 0,
            Launch::GemvQ6k { n_rows, k, w_len } => k % 256 == 0 && 256 * w_len == n_rows * k * 210,
            Launch::GemvQ6kQ8 { n_rows, k, w_len, q8_len } => k % 256 == 0 && 256 * w_len == n_rows
                * k * 210 && 5 * k <= 4 * q8_len,
            Launch::QuantizeQ8 { k, n, q8_len } => k % 32 == 0 && n * (5 * k) <= 4 * q8_len,
            Launch::AttnDecode { kv_start, kv_end, n_heads } => kv_start < kv_end && 4 * (kv_end
                - kv_start) <= 48 * 1024,
            Launch::AttnBatch { n_heads, n_seqs, max_ctx } => 4 * max_ctx <= 48 * 1024,
            Launch::Router { n_experts, topk, n_seqs } => n_experts <= 1024 && topk <= 32,
            _ => true,
        },
{
    match launch {
        Launch::GemvQ4 { n_rows, k, w_len } => {
            let b = k as int / 32;
            assert(32 * (n_rows * (b * 18)) == n_rows * k * 18) by (nonlinear_arith)
                requires
                    k == 32 * b,
            ;
        },
        Launch::GemvQ6k { n_rows, k, w_len } => {
            let b = k as int / 256;
            assert(256 * (n_rows * (b * 210)) == n_rows * k * 210) by (nonlinear_arith)
                requires
                    k == 256 * b,
            ;
        },
        Launch::GemvQ6kQ8 { n_rows, k, w_len, q8_len } => {
            let b = k as int / 256;
            assert(256 * (n_rows * (b * 210)) == n_rows * k * 210) by (nonlinear_arith)
                requires
                    k == 256 * b,
            ;
        },
        Launch::QuantizeQ8 { k, n, q8_len } => {
            let b = k as int / 32;
            assert(n * (5 * k) == 4 * (n * (b * 40))) by (nonlinear_arith)
                requires
                    k == 32 * b,
            ;
        },
        _ => {},
    }
}

/// A launch is refused only for a reason.
pub proof fn launches_are_refused_for_a_reason(launch: Launch)
    requires
        launch.plan() is Err,
    ensures
        match launch {
            Launch::GemvQ4 { n_rows, k, w_len } => k % 32 != 0 || 32 * w_len != n_rows * k * 18
                || n_rows > u32::MAX,
            Launch::GemvQ4r { n_rows, k, n_entries } => k % 32 != 0 || n_rows > u32::MAX || n_entries
                > u32::MAX || 5 * k > 4 * u32::MAX,
            Launch::QuantizeQ8 { k, n, q8_len } => k % 32 != 0 || n * (5 * k) > 4 * q8_len || n * k
                > u32::MAX,
            Launch::AttnBatch { n_heads, n_seqs, max_ctx } => 4 * max_ctx > 48 * 1024 || n_heads
                > u32::MAX || n_seqs > u32::MAX,
            Launch::AttnDecode { kv_start, kv_end, n_heads } => kv_end <= kv_start || 4 * (kv_end
                - kv_start) > 48 * 1024 || n_heads > u32::MAX,
            Launch::Router { n_experts, topk, n_seqs } => n_experts > 1024 || topk > 32 || n_seqs
                > u32::MAX,
            Launch::Rows { n } => n > u32::MAX,
            Launch::Strips { dim, n } => dim > u32::MAX || n > u32::MAX,
            Launch::NormHeads { n_seqs, heads } => n_seqs * heads > u32::MAX,
            Launch::RopeHeads { n_seqs, heads } => n_seqs * heads > u32::MAX,
            Launch::FlatRows { inter, n } => inter * n > u32::MAX,
            Launch::Admit { n_entries } => false,
            Launch::Promote { n_entries } => n_entries > u32::MAX,
            Launch::Combine { dim, n } => n > u32::MAX || 4 * (128 + dim) > u32::MAX,
            Launch::Sample { n_seqs } => n_seqs > u32::MAX,
            Launch::GemvGrouped { n_rows, k, n_experts, slots_len, y_len, y_stride } => k % 32 != 0
                || slots_len < n_experts || y_len < n_experts * y_stride || n_rows > u32::MAX
                || n_experts > u32::MAX || 4 * k > u32::MAX,
            Launch::GemvGroupedQ8 { n_rows, k, n_experts, slots_len, y_len, y_stride } => k % 32
                != 0 || slots_len < n_experts || y_len < n_experts * y_stride || n_rows > u32::MAX
                || n_experts > u32::MAX || 5 * k > 4 * u32::MAX,
            Launch::GemvIndexedQ8 {
                n_rows,
                k,
                n_entries,
                bases_len,
                index_len,
                y_len,
                y_stride,
            } => k % 32 != 0 || bases_len < n_entries || index_len < n_entries || y_len < n_entries
                * y_stride || n_rows > u32::MAX || n_entries > u32::MAX || 5 * k > 4 * u32::MAX,
            Launch::GemvQ6k { n_rows, k, w_len } => k % 256 != 0 || 256 * w_len != n_rows * k * 210
                || n_rows > u32::MAX || 4 * k > u32::MAX,
            Launch::GemvQ6kQ8 { n_rows, k, w_len, q8_len } => k % 256 != 0 || 256 * w_len != n_rows
                * k * 210 || 5 * k > 4 * q8_len || n_rows > u32::MAX || 5 * k > 4 * u32::MAX,
            Launch::GemvRows { n_rows, n_seqs } => n_rows > u32::MAX || n_seqs > u32::MAX,
            Launch::Flat { total } => total > u32::MAX,
        },
{
    match launch {
        Launch::GemvGrouped { n_rows, k, n_experts, slots_len, y_len, y_stride } => {
            parts_cover_everything(n_rows as int, 4);
        },
        Launch::GemvGroupedQ8 { n_rows, k, n_experts, slots_len, y_len, y_stride } => {
            parts_cover_everything(n_rows as int, 4);
        },
        Launch::GemvIndexedQ8 { n_rows, k, n_entries, bases_len, index_len, y_len, y_stride } => {
            parts_cover_everything(n_rows as int, 4);
        },
        Launch::GemvQ6k { n_rows, k, w_len } => {
            let b = k as int / 256;
            if k % 256 == 0 {
                assert(256 * (n_rows * (b * 210)) == n_rows * k * 210) by (nonlinear_arith)
                    requires
                        k == 256 * b,
                ;
            }
            parts_cover_everything(n_rows as int, 4);
        },
        Launch::GemvQ6kQ8 { n_rows, k, w_len, q8_len } => {
            let b = k as int / 256;
            if k % 256 == 0 {
                assert(256 * (n_rows * (b * 210)) == n_rows * k * 210) by (nonlinear_arith)
                    requires
                        k == 256 * b,
                ;
            }
            parts_cover_everything(n_rows as int, 16);
        },
        Launch::Flat { total } => {
            parts_cover_everything(total as int, 256);
        },
        Launch::GemvQ4 { n_rows, k, w_len } => {
            let b = k as int / 32;
            if k % 32 == 0 {
                assert(32 * (n_rows * (b * 18)) == n_rows * k * 18) by (nonlinear_arith)
                    requires
                        k == 32 * b,
                ;
            }
        },
        Launch::GemvQ4r { n_rows, k, n_entries } => {
            parts_cover_everything(n_rows as int, 8);
        },
        Launch::QuantizeQ8 { k, n, q8_len } => {
            let b = k as int / 32;
            if k % 32 == 0 {
                assert(n * (5 * k) == 4 * (n * (b * 40))) by (nonlinear_arith)
                    requires
                        k == 32 * b,
                ;
                assert(n * b * 32 == n * k && 0 <= n * b * 32) by (nonlinear_arith)
                    requires
                        k == 32 * b,
                        0 <= n,
                        0 <= b,
                ;
                parts_cover_everything(n * b * 32, 256);
            }
        },
        Launch::Strips { dim, n } => {
            parts_cover_everything(dim as int, 256);
        },
        Launch::FlatRows { inter, n } => {
            assert(0 <= inter * n) by (nonlinear_arith);
            parts_cover_everything(inter * n, 256);
        },
        _ => {},
    }
}

} // verus!
