//! The q4_0 weight format: 32 weights in a block of 18 bytes, a half-precision
//! scale and 16 bytes of codes. Byte `i` of these packs code `i` in its low half
//! and code `i + 16` in its high half. A weight is its code less 8, times the
//! scale.
//!
//! The q4r layout of a row holds the same blocks with all scales in front, for
//! coalesced loads: the scales, padded to a multiple of 16 bytes, and then the 16
//! code bytes of each block.
//!
//! Scales are carried as bit patterns. What is computed here is what the formats
//! do in integers.

use crate::par::{fill_chunks, ChunkFill};
use vstd::prelude::*;

verus! {

/// Weights in a block.
pub const QK: usize = 32;

/// Bytes of a block.
pub const BLOCK_BYTES: usize = 18;

/// Bytes of a row of `k` weights.
pub fn row_bytes(k: usize) -> (r: usize)
    requires
        k % QK == 0,
    ensures
        r == k / QK * BLOCK_BYTES,
{
    k / QK * BLOCK_BYTES
}

/// The number within the range of a code that is nearest to `v`.
pub open spec fn clamped(v: i32) -> int {
    if v < 0 {
        0
    } else if v > 15 {
        15
    } else {
        v as int
    }
}

/// The row that holds the given scales and codes.
pub open spec fn packed(scales: Seq<u16>, codes: Seq<i32>) -> Seq<u8> {
    Seq::new(
        (codes.len() / 32 * 18) as nat,
        |j: int|
            {
                let b = j / 18;
                let i = j % 18 - 2;
                if i == -2 {
                    (scales[b] % 256) as u8
                } else if i == -1 {
                    (scales[b] / 256) as u8
                } else {
                    (clamped(codes[32 * b + i]) + 16 * clamped(codes[32 * b + i + 16])) as u8
                }
            },
    )
}

/// The scale of block `b` of a row.
pub open spec fn scale_at(row: Seq<u8>, b: int) -> u16 {
    (row[18 * b] + 256 * row[18 * b + 1]) as u16
}

/// Code `i` out of the 16 code bytes of a block.
pub open spec fn code_of(bytes: Seq<u8>, i: int) -> int {
    if i < 16 {
        bytes[i] as int % 16
    } else {
        bytes[i - 16] as int / 16
    }
}

/// The code bytes of block `b` of a row.
pub open spec fn code_bytes(row: Seq<u8>, b: int) -> Seq<u8> {
    row.subrange(18 * b + 2, 18 * b + 18)
}

/// The scales of a row of `n` weights.
pub open spec fn scales_of(row: Seq<u8>, n: nat) -> Seq<u16> {
    Seq::new((n / 32) as nat, |b: int| scale_at(row, b))
}

/// The codes less 8 of a row of `n` weights.
pub open spec fn levels_of(row: Seq<u8>, n: nat) -> Seq<i32> {
    Seq::new(n, |j: int| (code_of(code_bytes(row, j / 32), j % 32) - 8) as i32)
}

fn clamp_code(v: i32) -> (r: u8)
    ensures
        r == clamped(v),
{
    if v < 0 {
        0
    } else if v > 15 {
        15
    } else {
        v as u8
    }
}

/// Packs a row out of the scale of each block and the code of each weight. Codes
/// out of range count as the nearest one in range.
pub fn quantize_row(scales: &[u16], codes: &[i32], out: &mut [u8])
    requires
        codes@.len() % 32 == 0,
        scales@.len() == codes@.len() / 32,
        old(out)@.len() == codes@.len() / 32 * 18,
    ensures
        final(out)@ == packed(scales@, codes@),
{
    let nb: usize = scales.len();
    let ghost len: usize = codes.len();
    let ghost goal = packed(scales@, codes@);
    let mut b: usize = 0;
    while b < nb
        invariant
            b <= nb == scales@.len(),
            len == codes@.len() == 32 * nb,
            out@.len() == goal.len() == 18 * nb,
            goal == packed(scales@, codes@),
            forall|j: int| 0 <= j < 18 * b ==> #[trigger] out@[j] == goal[j],
        decreases nb - b,
    {
        out[18 * b] = (scales[b] % 256) as u8;
        out[18 * b + 1] = (scales[b] / 256) as u8;
        let mut i: usize = 0;
        while i < 16
            invariant
                i <= 16,
                b < nb == scales@.len(),
                len == codes@.len() == 32 * nb,
                out@.len() == goal.len() == 18 * nb,
                goal == packed(scales@, codes@),
                forall|j: int| 0 <= j < 18 * b + 2 + i ==> #[trigger] out@[j] == goal[j],
            decreases 16 - i,
        {
            let low: u8 = clamp_code(codes[32 * b + i]);
            let high: u8 = clamp_code(codes[32 * b + i + 16]);
            out[18 * b + 2 + i] = low + 16 * high;
            i = i + 1;
        }
        b = b + 1;
    }
    assert(out@ =~= goal);
}

/// A row as integers: the scale of each block, and for each weight its code less
/// 8. The weight is the product of the two.
pub struct Levels {
    pub scales: Vec<u16>,
    pub levels: Vec<i32>,
}

/// Unpacks a row of `n` weights.
pub fn dequantize_row(row: &[u8], n: usize) -> (r: Levels)
    requires
        n % 32 == 0,
        row@.len() == n / 32 * 18,
    ensures
        r.scales@ == scales_of(row@, n as nat),
        r.levels@ == levels_of(row@, n as nat),
{
    let ghost len: usize = row.len();
    let mut scales: Vec<u16> = Vec::new();
    let mut levels: Vec<i32> = Vec::new();
    let mut b: usize = 0;
    while b < n / 32
        invariant
            b <= n / 32,
            n % 32 == 0,
            len == row@.len() == n / 32 * 18,
            scales@ =~= scales_of(row@, n as nat).take(b as int),
            levels@ =~= levels_of(row@, n as nat).take(32 * b),
        decreases n / 32 - b,
    {
        scales.push(row[18 * b] as u16 + 256 * (row[18 * b + 1] as u16));
        let mut i: usize = 0;
        while i < 32
            invariant
                i <= 32,
                b < n / 32,
                n % 32 == 0,
                len == row@.len() == n / 32 * 18,
                levels@ =~= levels_of(row@, n as nat).take(32 * b + i),
            decreases 32 - i,
        {
            let code: u8 = if i < 16 {
                row[18 * b + 2 + i] % 16
            } else {
                row[18 * b + 2 + i - 16] / 16
            };
            levels.push(code as i32 - 8);
            assert((32 * b + i) / 32 == b && (32 * b + i) % 32 == i);
            i = i + 1;
        }
        b = b + 1;
    }
    Levels { scales, levels }
}

/// The number from -127 to 127 that is nearest to `v`.
pub open spec fn clamped_8(v: i32) -> i8 {
    if v < -127 {
        -127i8
    } else if v > 127 {
        127i8
    } else {
        v as i8
    }
}

/// An activation vector in blocks of 32: the scale of each block, as the bit
/// pattern of a single-precision number, and a signed byte for each entry.
pub struct Q8Vec {
    pub d: Vec<u32>,
    pub qs: Vec<i8>,
}

impl Q8Vec {
    /// The vector with the given scales, out of its entries divided by their
    /// scale and rounded. Entries out of range count as the nearest one in range.
    pub fn quantize(scales: Vec<u32>, rounded: &[i32]) -> (r: Q8Vec)
        requires
            rounded@.len() % 32 == 0,
            scales@.len() == rounded@.len() / 32,
        ensures
            r.wf(),
            r.d@ == scales@,
            r.qs@ == rounded@.map_values(|v: i32| clamped_8(v)),
    {
        let mut qs: Vec<i8> = Vec::new();
        let mut i: usize = 0;
        while i < rounded.len()
            invariant
                i <= rounded@.len(),
                qs@ =~= rounded@.map_values(|v: i32| clamped_8(v)).take(i as int),
            decreases rounded@.len() - i,
        {
            let v: i32 = rounded[i];
            let q: i8 = if v < -127 {
                -127
            } else if v > 127 {
                127
            } else {
                v as i8
            };
            qs.push(q);
            i = i + 1;
        }
        Q8Vec { d: scales, qs }
    }

    /// There is one scale for every 32 entries.
    pub open spec fn wf(&self) -> bool {
        self.qs@.len() == 32 * self.d@.len()
    }
}

/// The products of the levels of a block's first `n` codes with the entries, all
/// added up.
pub open spec fn partial_dot(bytes: Seq<u8>, xs: Seq<i8>, a: int, n: int) -> int
    decreases n - a,
{
    if n <= a {
        0
    } else {
        partial_dot(bytes, xs, a, n - 1) + (code_of(bytes, n - 1) - 8) * xs[n - 1]
    }
}

/// The dot product of a block of weights with 32 entries, in integers.
pub open spec fn block_dot(bytes: Seq<u8>, xs: Seq<i8>) -> int {
    partial_dot(bytes, xs, 0, 32)
}

/// The part of an activation vector that belongs to block `b`.
pub open spec fn entries_of(qs: Seq<i8>, b: int) -> Seq<i8> {
    qs.subrange(32 * b, 32 * b + 32)
}

/// What one block adds to a dot product: the scale of its weights and the
/// integer dot product.
#[derive(Clone, Copy, Debug, PartialEq, Eq)]
pub struct BlockDot {
    pub scale: u16,
    pub sum: i32,
}

proof fn lemma_partial_dot_split(bytes: Seq<u8>, xs: Seq<i8>, a: int, m: int, n: int)
    requires
        a <= m <= n,
    ensures
        partial_dot(bytes, xs, a, n) == partial_dot(bytes, xs, a, m) + partial_dot(bytes, xs, m, n),
    decreases n - m,
{
    if m < n {
        lemma_partial_dot_split(bytes, xs, a, m, n - 1);
    }
}

/// The dot product of the 16 code bytes at `at` with the 32 entries at `x_at`.
fn dot_of_block(row: &[u8], at: usize, qs: &[i8], x_at: usize) -> (s: i32)
    requires
        at + 16 <= row@.len() <= usize::MAX,
        x_at + 32 <= qs@.len() <= usize::MAX,
    ensures
        s == block_dot(
            row@.subrange(at as int, at + 16),
            qs@.subrange(x_at as int, x_at + 32),
        ),
        -32768 <= s <= 32768,
{
    let ghost bytes = row@.subrange(at as int, at + 16);
    let ghost xs = qs@.subrange(x_at as int, x_at + 32);
    let mut s: i32 = 0;
    let mut i: usize = 0;
    while i < 16
        invariant
            i <= 16,
            at + 16 <= row@.len() <= usize::MAX,
            x_at + 32 <= qs@.len() <= usize::MAX,
            bytes == row@.subrange(at as int, at + 16),
            xs == qs@.subrange(x_at as int, x_at + 32),
            s == partial_dot(bytes, xs, 0, i as int) + partial_dot(bytes, xs, 16, 16 + i),
            -2048 * i <= s <= 2048 * i,
        decreases 16 - i,
    {
        let low: i32 = (row[at + i] % 16) as i32 - 8;
        let high: i32 = (row[at + i] / 16) as i32 - 8;
        let x0: i32 = qs[x_at + i] as i32;
        let x1: i32 = qs[x_at + i + 16] as i32;
        assert(-1024 <= low * x0 <= 1024) by (nonlinear_arith)
            requires
                -8 <= low <= 7,
                -128 <= x0 <= 127,
        ;
        assert(-1024 <= high * x1 <= 1024) by (nonlinear_arith)
            requires
                -8 <= high <= 7,
                -128 <= x1 <= 127,
        ;
        s = s + low * x0 + high * x1;
        i = i + 1;
    }
    proof {
        lemma_partial_dot_split(bytes, xs, 0, 16, 32);
    }
    s
}

/// What each block of a row adds to its dot product with an activation vector.
pub open spec fn row_dots(row: Seq<u8>, qs: Seq<i8>) -> Seq<BlockDot> {
    Seq::new(
        (qs.len() / 32) as nat,
        |b: int|
            BlockDot {
                scale: scale_at(row, b),
                sum: block_dot(code_bytes(row, b), entries_of(qs, b)) as i32,
            },
    )
}

/// What each block of a row adds to its dot product with an activation vector.
pub fn dot_q4_q8(row: &[u8], x8: &Q8Vec, out: &mut [BlockDot])
    requires
        x8.wf(),
        row@.len() == x8.qs@.len() / 32 * 18,
        old(out)@.len() == x8.qs@.len() / 32,
    ensures
        final(out)@ == row_dots(row@, x8.qs@),
{
    let ghost len: usize = row.len();
    let n: usize = x8.qs.len();
    let ghost goal = row_dots(row@, x8.qs@);
    let mut b: usize = 0;
    while b < n / 32
        invariant
            b <= n / 32,
            n == x8.qs@.len(),
            n % 32 == 0,
            len == row@.len() == n / 32 * 18,
            out@.len() == n / 32,
            goal == row_dots(row@, x8.qs@),
            forall|j: int| 0 <= j < b ==> #[trigger] out@[j] == goal[j],
        decreases n / 32 - b,
    {
        let scale: u16 = row[18 * b] as u16 + 256 * (row[18 * b + 1] as u16);
        let sum: i32 = dot_of_block(row, 18 * b + 2, x8.qs.as_slice(), 32 * b);
        assert(18 * b + 2 + 16 == 18 * b + 18);
        out[b] = BlockDot { scale, sum };
        b = b + 1;
    }
    assert(out@ =~= goal);
}

/// Bytes of the scales of a q4r row of `k` weights, with padding.
pub open spec fn q4r_scales(k: int) -> int {
    (k / 32 * 2 + 15) / 16 * 16
}

/// Bytes of a q4r row of `k` weights.
pub open spec fn q4r_bytes(k: int) -> int {
    q4r_scales(k) + k / 32 * 16
}

/// Bytes of the scales of a q4r row of `k` weights, with padding.
pub fn q4r_scales_bytes(k: usize) -> (r: usize)
    ensures
        r == q4r_scales(k as int),
        r >= k / 32 * 2,
{
    let n: usize = k / QK * 2;
    (n + 15) / 16 * 16
}

/// Bytes of a q4r row of `k` weights.
pub fn q4r_row_bytes(k: usize) -> (r: usize)
    ensures
        r == q4r_bytes(k as int),
{
    q4r_scales_bytes(k) + k / QK * 16
}

/// Bytes of a q4r row of `k` weights, and where in it the codes start.
pub fn q4r_geom(k: usize) -> (r: (usize, usize))
    ensures
        r.0 == q4r_bytes(k as int),
        r.1 == q4r_scales(k as int),
{
    (q4r_row_bytes(k), q4r_scales_bytes(k))
}

/// A row of `k` weights in the q4r layout. The padding keeps what was in `before`.
pub open spec fn repacked(src: Seq<u8>, before: Seq<u8>, k: int) -> Seq<u8> {
    Seq::new(
        q4r_bytes(k) as nat,
        |j: int|
            if j < k / 32 * 2 {
                src[18 * (j / 2) + j % 2]
            } else if j < q4r_scales(k) {
                before[j]
            } else {
                src[18 * ((j - q4r_scales(k)) / 16) + 2 + (j - q4r_scales(k)) % 16]
            },
    )
}

/// Moves a row of `k` weights into the q4r layout. The padding is left as it is.
pub fn repack_row_q4r(src: &[u8], dst: &mut [u8], k: usize)
    requires
        k % 32 == 0,
        src@.len() == k / 32 * 18,
        old(dst)@.len() == q4r_bytes(k as int),
    ensures
        final(dst)@ == repacked(src@, old(dst)@, k as int),
{
    let ghost before = dst@;
    let ghost goal = repacked(src@, before, k as int);
    let ghost n: usize = src.len();
    let ghost m: usize = dst.len();
    let nb: usize = k / QK;
    let at: usize = q4r_scales_bytes(k);
    let mut b: usize = 0;
    while b < nb
        invariant
            b <= nb == k / 32,
            n == src@.len() == 18 * nb,
            at == q4r_scales(k as int) >= 2 * nb,
            m == dst@.len() == goal.len() == at + 16 * nb,
            goal == repacked(src@, before, k as int),
            before.len() == m,
            forall|j: int| 0 <= j < 2 * b ==> #[trigger] dst@[j] == goal[j],
            forall|j: int| 2 * b <= j < at ==> #[trigger] dst@[j] == before[j],
            forall|j: int| at <= j < at + 16 * b ==> #[trigger] dst@[j] == goal[j],
        decreases nb - b,
    {
        dst[2 * b] = src[18 * b];
        dst[2 * b + 1] = src[18 * b + 1];
        let mut i: usize = 0;
        while i < 16
            invariant
                i <= 16,
                b < nb == k / 32,
                n == src@.len() == 18 * nb,
                at == q4r_scales(k as int) >= 2 * nb,
                m == dst@.len() == goal.len() == at + 16 * nb,
                goal == repacked(src@, before, k as int),
                before.len() == m,
                forall|j: int| 0 <= j < 2 * b + 2 ==> #[trigger] dst@[j] == goal[j],
                forall|j: int| 2 * b + 2 <= j < at ==> #[trigger] dst@[j] == before[j],
                forall|j: int| at <= j < at + 16 * b + i ==> #[trigger] dst@[j] == goal[j],
            decreases 16 - i,
        {
            dst[at + 16 * b + i] = src[18 * b + 2 + i];
            assert((16 * b + i) / 16 == b && (16 * b + i) % 16 == i);
            i = i + 1;
        }
        b = b + 1;
    }
    assert(dst@ =~= goal);
}

/// The scale of block `b` of a q4r row.
pub open spec fn scale_at_r(row: Seq<u8>, b: int) -> u16 {
    (row[2 * b] + 256 * row[2 * b + 1]) as u16
}

/// The code bytes of block `b` of a q4r row of `k` weights.
pub open spec fn code_bytes_r(row: Seq<u8>, k: int, b: int) -> Seq<u8> {
    row.subrange(q4r_scales(k) + 16 * b, q4r_scales(k) + 16 * b + 16)
}

/// What each block of a q4r row adds to its dot product with an activation
/// vector.
pub open spec fn row_dots_r(row: Seq<u8>, qs: Seq<i8>) -> Seq<BlockDot> {
    Seq::new(
        (qs.len() / 32) as nat,
        |b: int|
            BlockDot {
                scale: scale_at_r(row, b),
                sum: block_dot(code_bytes_r(row, qs.len() as int, b), entries_of(qs, b)) as i32,
            },
    )
}

/// What each block of a q4r row adds to its dot product with an activation
/// vector.
pub fn dot_q4r_q8(row: &[u8], x8: &Q8Vec, out: &mut [BlockDot])
    requires
        x8.wf(),
        row@.len() == q4r_bytes(x8.qs@.len() as int),
        old(out)@.len() == x8.qs@.len() / 32,
    ensures
        final(out)@ == row_dots_r(row@, x8.qs@),
{
    let ghost len: usize = row.len();
    let n: usize = x8.qs.len();
    let at: usize = q4r_scales_bytes(n);
    let ghost goal = row_dots_r(row@, x8.qs@);
    let mut b: usize = 0;
    while b < n / 32
        invariant
            b <= n / 32,
            n == x8.qs@.len(),
            n % 32 == 0,
            at == q4r_scales(n as int) >= n / 32 * 2,
            len == row@.len() == at + n / 32 * 16,
            out@.len() == n / 32,
            goal == row_dots_r(row@, x8.qs@),
            forall|j: int| 0 <= j < b ==> #[trigger] out@[j] == goal[j],
        decreases n / 32 - b,
    {
        let scale: u16 = row[2 * b] as u16 + 256 * (row[2 * b + 1] as u16);
        let sum: i32 = dot_of_block(row, at + 16 * b, x8.qs.as_slice(), 32 * b);
        out[b] = BlockDot { scale, sum };
        b = b + 1;
    }
    assert(out@ =~= goal);
}

/// Row `r` of a matrix whose rows take `len` items each.
pub open spec fn row_of<T>(w: Seq<T>, len: int, r: int) -> Seq<T> {
    w.subrange(r * len, r * len + len)
}

proof fn lemma_row_in_range(rows: int, len: int, r: int)
    requires
        0 <= r < rows,
        0 <= len,
    ensures
        0 <= r * len,
        r * len + len <= rows * len,
{
    assert(0 <= r * len && r * len + len <= rows * len) by (nonlinear_arith)
        requires
            0 <= r < rows,
            0 <= len,
    ;
}

proof fn lemma_rows(rows: int, len: int)
    requires
        0 < len,
        0 <= rows,
    ensures
        rows * len / len == rows,
{
    vstd::arithmetic::div_mod::lemma_div_multiples_vanish(rows, len);
    assert(rows * len == len * rows) by (nonlinear_arith);
}

/// The dot products of the rows of a matrix with one vector.
struct RowDots<'a> {
    w: &'a [u8],
    x8: &'a Q8Vec,
    row_len: usize,
    q4r: bool,
}

impl<'a> RowDots<'a> {
    spec fn wf(&self) -> bool {
        let n = self.x8.qs@.len();
        &&& self.x8.wf()
        &&& self.w@.len() <= usize::MAX
        &&& self.row_len == if self.q4r {
            q4r_bytes(n as int)
        } else {
            n as int / 32 * 18
        }
    }
}

impl<'a> ChunkFill<BlockDot> for RowDots<'a> {
    closed spec fn chunk(&self, i: int) -> Seq<BlockDot> {
        let row = row_of(self.w@, self.row_len as int, i);
        if self.q4r {
            row_dots_r(row, self.x8.qs@)
        } else {
            row_dots(row, self.x8.qs@)
        }
    }

    closed spec fn ready(&self, i: int, before: Seq<BlockDot>) -> bool {
        &&& self.wf()
        &&& 0 <= i * self.row_len
        &&& i * self.row_len + self.row_len <= self.w@.len()
        &&& before.len() == self.x8.qs@.len() / 32
    }

    fn fill(&self, i: usize, dst: &mut [BlockDot]) {
        let start: usize = i * self.row_len;
        let w = self.w;
        let row = &w[start..start + self.row_len];
        if self.q4r {
            dot_q4r_q8(row, self.x8, dst);
        } else {
            dot_q4_q8(row, self.x8, dst);
        }
    }
}

/// The dot products of all rows, block by block.
fn all_row_dots(job: &RowDots, n_rows: usize) -> (y: Vec<BlockDot>)
    requires
        job.wf(),
        job.w@.len() == n_rows * job.row_len,
    ensures
        y@.len() == n_rows * (job.x8.qs@.len() / 32),
        forall|r: int|
            0 <= r < n_rows ==> #[trigger] row_of(y@, job.x8.qs@.len() as int / 32, r)
                == job.chunk(r),
{
    let nb: usize = job.x8.d.len();
    if nb == 0 {
        let y: Vec<BlockDot> = Vec::new();
        assert(n_rows * 0 == 0) by (nonlinear_arith);
        assert forall|r: int| 0 <= r < n_rows implies #[trigger] row_of(
            y@,
            job.x8.qs@.len() as int / 32,
            r,
        ) == job.chunk(r) by {
            assert(r * 0 == 0) by (nonlinear_arith);
            assert(row_of(y@, 0, r) =~= job.chunk(r));
        }
        return y;
    }
    assert(n_rows * nb <= n_rows * job.row_len) by (nonlinear_arith)
        requires
            nb <= job.row_len,
    ;
    let mut y: Vec<BlockDot> = vec![BlockDot { scale: 0, sum: 0 }; n_rows * nb];
    proof {
        lemma_rows(n_rows as int, nb as int);
        assert forall|r: int| 0 <= r < n_rows implies job.ready(
            r,
            #[trigger] crate::par::nth_chunk(y@, nb as nat, r),
        ) by {
            lemma_row_in_range(n_rows as int, job.row_len as int, r);
            lemma_row_in_range(n_rows as int, nb as int, r);
        }
    }
    fill_chunks(y.as_mut_slice(), nb, job);
    assert forall|r: int| 0 <= r < n_rows implies #[trigger] row_of(
        y@,
        job.x8.qs@.len() as int / 32,
        r,
    ) == job.chunk(r) by {
        assert(row_of(y@, nb as int, r) == crate::par::nth_chunk(y@, nb as nat, r));
    }
    y
}

/// The dot products of the rows of a q4_0 matrix with a vector, block by block.
pub fn gemv_q8(w: &[u8], x8: &Q8Vec, n_rows: usize) -> (y: Vec<BlockDot>)
    requires
        x8.wf(),
        w@.len() == n_rows * (x8.qs@.len() / 32 * 18),
    ensures
        y@.len() == n_rows * (x8.qs@.len() / 32),
        forall|r: int|
            0 <= r < n_rows ==> #[trigger] row_of(y@, x8.qs@.len() as int / 32, r) == row_dots(
                row_of(w@, x8.qs@.len() as int / 32 * 18, r),
                x8.qs@,
            ),
{
    let ghost len: usize = w.len();
    let n: usize = x8.qs.len();
    let job = RowDots { w, x8, row_len: n / QK * BLOCK_BYTES, q4r: false };
    let y = all_row_dots(&job, n_rows);
    assert forall|r: int| 0 <= r < n_rows implies #[trigger] row_of(
        y@,
        x8.qs@.len() as int / 32,
        r,
    ) == row_dots(row_of(w@, x8.qs@.len() as int / 32 * 18, r), x8.qs@) by {
        assert(job.chunk(r) == row_dots(row_of(w@, job.row_len as int, r), x8.qs@));
    }
    y
}

/// The dot products of the rows of a q4r matrix with a vector, block by block.
pub fn gemv_q8_r(w: &[u8], x8: &Q8Vec, n_rows: usize) -> (y: Vec<BlockDot>)
    requires
        x8.wf(),
        w@.len() == n_rows * q4r_bytes(x8.qs@.len() as int),
    ensures
        y@.len() == n_rows * (x8.qs@.len() / 32),
        forall|r: int|
            0 <= r < n_rows ==> #[trigger] row_of(y@, x8.qs@.len() as int / 32, r) == row_dots_r(
                row_of(w@, q4r_bytes(x8.qs@.len() as int), r),
                x8.qs@,
            ),
{
    let ghost len: usize = w.len();
    let n: usize = x8.qs.len();
    let job = RowDots { w, x8, row_len: q4r_row_bytes(n), q4r: true };
    let y = all_row_dots(&job, n_rows);
    assert forall|r: int| 0 <= r < n_rows implies #[trigger] row_of(
        y@,
        x8.qs@.len() as int / 32,
        r,
    ) == row_dots_r(row_of(w@, q4r_bytes(x8.qs@.len() as int), r), x8.qs@) by {
        assert(job.chunk(r) == row_dots_r(row_of(w@, job.row_len as int, r), x8.qs@));
    }
    y
}

/// So many zero bytes.
pub open spec fn zeros(n: int) -> Seq<u8> {
    Seq::new(n as nat, |j: int| 0u8)
}

/// Bytes of a q4_0 matrix.
pub open spec fn matrix_bytes(rows: int, k: int) -> int {
    rows * (k / 32 * 18)
}

/// Bytes of a q4r matrix.
pub open spec fn matrix_bytes_r(rows: int, k: int) -> int {
    rows * q4r_bytes(k)
}

/// The rows of a q4_0 matrix in the q4r layout, one after the other, with zeros
/// for padding.
pub open spec fn repacked_rows(src: Seq<u8>, rows: int, k: int) -> Seq<u8> {
    Seq::new(
        matrix_bytes_r(rows, k) as nat,
        |j: int|
            repacked(
                row_of(src, k / 32 * 18, j / q4r_bytes(k)),
                zeros(q4r_bytes(k)),
                k,
            )[j % q4r_bytes(k)],
    )
}

/// Position `j` lies in row `r`.
pub(crate) proof fn lemma_place(j: int, r: int, len: int)
    requires
        0 < len,
        r * len <= j < r * len + len,
    ensures
        j / len == r,
        j % len == j - r * len,
{
    vstd::arithmetic::div_mod::lemma_fundamental_div_mod_converse(j, len, r, j - r * len);
}

/// The rows of a q4_0 matrix in the q4r layout.
struct Repack<'a> {
    src: &'a [u8],
    k: usize,
}

impl<'a> ChunkFill<u8> for Repack<'a> {
    closed spec fn chunk(&self, i: int) -> Seq<u8> {
        let k = self.k as int;
        repacked(row_of(self.src@, k / 32 * 18, i), zeros(q4r_bytes(k)), k)
    }

    closed spec fn ready(&self, i: int, before: Seq<u8>) -> bool {
        let len = self.k as int / 32 * 18;
        &&& self.k % 32 == 0
        &&& self.src@.len() <= usize::MAX
        &&& 0 <= i * len
        &&& i * len + len <= self.src@.len()
        &&& before == zeros(q4r_bytes(self.k as int))
    }

    fn fill(&self, i: usize, dst: &mut [u8]) {
        let len: usize = row_bytes(self.k);
        let start: usize = i * len;
        let src = self.src;
        repack_row_q4r(&src[start..start + len], dst, self.k);
    }
}

/// A q4_0 matrix of `n_rows` rows of `k` weights in the q4r layout.
pub fn repack_q4r(src: &[u8], n_rows: usize, k: usize) -> (out: Vec<u8>)
    requires
        k > 0,
        k % 32 == 0,
        src@.len() == n_rows * (k as int / 32 * 18),
        n_rows * q4r_bytes(k as int) <= usize::MAX,
    ensures
        out@ == repacked_rows(src@, n_rows as int, k as int),
{
    let ghost len: usize = src.len();
    let row: usize = q4r_row_bytes(k);
    let job = Repack { src, k };
    let mut out: Vec<u8> = vec![0u8; n_rows * row];
    proof {
        lemma_rows(n_rows as int, row as int);
        assert forall|r: int| 0 <= r < n_rows implies job.ready(
            r,
            #[trigger] crate::par::nth_chunk(out@, row as nat, r),
        ) by {
            lemma_row_in_range(n_rows as int, k as int / 32 * 18, r);
            lemma_row_in_range(n_rows as int, row as int, r);
            assert(crate::par::nth_chunk(out@, row as nat, r) =~= zeros(q4r_bytes(k as int)));
        }
    }
    fill_chunks(out.as_mut_slice(), row, &job);
    proof {
        let goal = repacked_rows(src@, n_rows as int, k as int);
        assert forall|j: int| 0 <= j < out@.len() implies out@[j] == goal[j] by {
            let r = j / row as int;
            vstd::arithmetic::div_mod::lemma_fundamental_div_mod(j, row as int);
            vstd::arithmetic::div_mod::lemma_mod_bound(j, row as int);
            assert(row * r == r * row) by (nonlinear_arith);
            assert(0 <= r < n_rows) by (nonlinear_arith)
                requires
                    0 <= j < n_rows * row,
                    j == r * row + j % row as int,
                    0 <= j % row as int,
                    row > 0,
            ;
            assert(crate::par::nth_chunk(out@, row as nat, r) == job.chunk(r));
            lemma_row_in_range(n_rows as int, row as int, r);
            assert(crate::par::nth_chunk(out@, row as nat, r)[j % row as int] == out@[j]);
        }
        assert(out@ =~= goal);
    }
    out
}

} // verus!
