//! The q6_k weight format: 256 weights in a block of 210 bytes. These are 128
//! bytes with the low 4 bits of each code, 64 bytes with the high 2 bits, a signed
//! scale for every 16 weights, and a half-precision scale for the whole block. A
//! weight is its code less 32, times its two scales.
//!
//! The scale of a block is carried as its bit pattern.

use crate::le_bytes::to_signed_8;
use vstd::prelude::*;

verus! {

/// Weights in a block.
pub const QK_K: usize = 256;

/// Bytes of a block.
pub const BLOCK_BYTES: usize = 210;

/// Bytes of a row of `k` weights.
pub fn row_bytes(k: usize) -> (r: usize)
    requires
        k % QK_K == 0,
    ensures
        r == k / QK_K * BLOCK_BYTES,
{
    k / QK_K * BLOCK_BYTES
}

/// The low 4 bits of the code of weight `p` of a block. The weights of a half
/// block are four quarters of 32: the first two in the low halves of 64 bytes, the
/// others in the high halves.
pub open spec fn low_bits(block: Seq<u8>, p: int) -> int {
    let quarter = p % 128 / 32;
    let byte = block[64 * (p / 128) + 32 * (quarter % 2) + p % 32] as int;
    if quarter < 2 {
        byte % 16
    } else {
        byte / 16
    }
}

/// The high 2 bits of the code of weight `p` of a block. A byte holds those of
/// one weight of each quarter of a half block, the first quarter lowest.
pub open spec fn high_bits(block: Seq<u8>, p: int) -> int {
    let quarter = p % 128 / 32;
    let byte = block[128 + 32 * (p / 128) + p % 32] as int;
    if quarter == 0 {
        byte % 4
    } else if quarter == 1 {
        byte / 4 % 4
    } else if quarter == 2 {
        byte / 16 % 4
    } else {
        byte / 64
    }
}

/// The code less 32 of weight `p` of a block.
pub open spec fn level_in(block: Seq<u8>, p: int) -> i32 {
    (low_bits(block, p) + 16 * high_bits(block, p) - 32) as i32
}

/// Block `b` of a row.
pub open spec fn block_at(row: Seq<u8>, b: int) -> Seq<u8> {
    row.subrange(210 * b, 210 * b + 210)
}

/// The scale of the whole of block `b` of a row.
pub open spec fn scale_at(row: Seq<u8>, b: int) -> u16 {
    (row[210 * b + 208] + 256 * row[210 * b + 209]) as u16
}

/// The signed scale of weights `16 * g` to `16 * g + 15` of a row.
pub open spec fn group_scale_at(row: Seq<u8>, g: int) -> i8 {
    crate::le_bytes::signed_8(row[210 * (g / 16) + 192 + g % 16])
}

/// The scales of the blocks of a row of `n` weights.
pub open spec fn scales_of(row: Seq<u8>, n: nat) -> Seq<u16> {
    Seq::new((n / 256) as nat, |b: int| scale_at(row, b))
}

/// The signed scales of a row of `n` weights.
pub open spec fn group_scales_of(row: Seq<u8>, n: nat) -> Seq<i8> {
    Seq::new((n / 16) as nat, |g: int| group_scale_at(row, g))
}

/// The codes less 32 of a row of `n` weights.
pub open spec fn levels_of(row: Seq<u8>, n: nat) -> Seq<i32> {
    Seq::new(n, |j: int| level_in(block_at(row, j / 256), j % 256))
}

/// A row as integers: the scale of each block, the signed scale of every 16
/// weights, and for each weight its code less 32. The weight is the product of the
/// three.
pub struct Levels {
    pub scales: Vec<u16>,
    pub group_scales: Vec<i8>,
    pub levels: Vec<i32>,
}

/// The code less 32 of weight `p` of the block at `at`.
fn level_of(row: &[u8], at: usize, p: usize) -> (r: i32)
    requires
        at + 210 <= row@.len() <= usize::MAX,
        p < 256,
    ensures
        r == level_in(row@.subrange(at as int, at + 210), p as int),
        -32 <= r <= 31,
{
    let quarter: usize = p % 128 / 32;
    let low_byte: u8 = row[at + 64 * (p / 128) + 32 * (quarter % 2) + p % 32];
    let high_byte: u8 = row[at + 128 + 32 * (p / 128) + p % 32];
    let low: u8 = if quarter < 2 {
        low_byte % 16
    } else {
        low_byte / 16
    };
    let high: u8 = if quarter == 0 {
        high_byte % 4
    } else if quarter == 1 {
        high_byte / 4 % 4
    } else if quarter == 2 {
        high_byte / 16 % 4
    } else {
        high_byte / 64
    };
    low as i32 + 16 * (high as i32) - 32
}

/// Unpacks a row of `n` weights.
pub fn dequantize_row(row: &[u8], n: usize) -> (r: Levels)
    requires
        n % 256 == 0,
        row@.len() == n / 256 * 210,
    ensures
        r.scales@ == scales_of(row@, n as nat),
        r.group_scales@ == group_scales_of(row@, n as nat),
        r.levels@ == levels_of(row@, n as nat),
{
    let ghost len: usize = row.len();
    let mut scales: Vec<u16> = Vec::new();
    let mut group_scales: Vec<i8> = Vec::new();
    let mut levels: Vec<i32> = Vec::new();
    let mut b: usize = 0;
    while b < n / 256
        invariant
            b <= n / 256,
            n % 256 == 0,
            len == row@.len() == n / 256 * 210,
            scales@ =~= scales_of(row@, n as nat).take(b as int),
            group_scales@ =~= group_scales_of(row@, n as nat).take(16 * b),
            levels@ =~= levels_of(row@, n as nat).take(256 * b),
        decreases n / 256 - b,
    {
        let at: usize = 210 * b;
        scales.push(row[at + 208] as u16 + 256 * (row[at + 209] as u16));
        let mut g: usize = 0;
        while g < 16
            invariant
                g <= 16,
                b < n / 256,
                at == 210 * b,
                n % 256 == 0,
                len == row@.len() == n / 256 * 210,
                group_scales@ =~= group_scales_of(row@, n as nat).take(16 * b + g),
            decreases 16 - g,
        {
            group_scales.push(to_signed_8(row[at + 192 + g]));
            assert((16 * b + g) / 16 == b && (16 * b + g) % 16 == g);
            g = g + 1;
        }
        let mut p: usize = 0;
        while p < 256
            invariant
                p <= 256,
                b < n / 256,
                at == 210 * b,
                n % 256 == 0,
                len == row@.len() == n / 256 * 210,
                levels@ =~= levels_of(row@, n as nat).take(256 * b + p),
            decreases 256 - p,
        {
            levels.push(level_of(row, at, p));
            assert((256 * b + p) / 256 == b && (256 * b + p) % 256 == p);
            assert(block_at(row@, b as int) == row@.subrange(at as int, at + 210));
            p = p + 1;
        }
        b = b + 1;
    }
    Levels { scales, group_scales, levels }
}

/// Every level fits in 6 bits with a sign.
pub proof fn levels_are_six_bits(row: Seq<u8>, n: nat, j: int)
    requires
        n % 256 == 0,
        row.len() == n / 256 * 210,
        0 <= j < n,
    ensures
        -32 <= levels_of(row, n)[j] <= 31,
{
}

/// Blocks are unpacked one by one: what two rows hold one behind the other is what the
/// first holds, followed by what the second holds.
pub proof fn rows_are_unpacked_one_by_one(a: Seq<u8>, m: nat, b: Seq<u8>, n: nat)
    requires
        m % 256 == 0,
        a.len() == m / 256 * 210,
        n % 256 == 0,
        b.len() == n / 256 * 210,
    ensures
        scales_of(a + b, m + n) == scales_of(a, m) + scales_of(b, n),
        group_scales_of(a + b, m + n) == group_scales_of(a, m) + group_scales_of(b, n),
        levels_of(a + b, m + n) == levels_of(a, m) + levels_of(b, n),
{
    let all = a + b;
    let blocks = (m / 256) as int;
    assert((m + n) / 256 == blocks + n / 256);
    assert((m + n) / 16 == m / 16 + n / 16);
    assert(scales_of(all, m + n) =~= scales_of(a, m) + scales_of(b, n));
    assert forall|g: int| 0 <= g < (m + n) / 16 implies group_scales_of(all, m + n)[g] == (
    group_scales_of(a, m) + group_scales_of(b, n))[g] by {
        if g >= m / 16 {
            let h = g - m / 16;
            assert(g / 16 == blocks + h / 16 && g % 16 == h % 16);
            assert(all[210 * (g / 16) + 192 + g % 16] == b[210 * (h / 16) + 192 + h % 16]);
        } else {
            assert(all[210 * (g / 16) + 192 + g % 16] == a[210 * (g / 16) + 192 + g % 16]);
        }
    }
    assert(group_scales_of(all, m + n) =~= group_scales_of(a, m) + group_scales_of(b, n));
    assert forall|j: int| 0 <= j < m + n implies levels_of(all, m + n)[j] == (levels_of(a, m)
        + levels_of(b, n))[j] by {
        if j >= m {
            let h = j - m;
            assert(j / 256 == blocks + h / 256 && j % 256 == h % 256);
            assert(block_at(all, j / 256) =~= block_at(b, h / 256));
        } else {
            assert(block_at(all, j / 256) =~= block_at(a, j / 256));
        }
    }
    assert(levels_of(all, m + n) =~= levels_of(a, m) + levels_of(b, n));
}

/// The block that holds a scale, 16 signed scales and 256 levels. The levels of a half
/// block are four quarters of 32. Each of its 64 low bytes has the low bits of a weight
/// of the first two quarters in its low half, and of the weight 64 places on in its high
/// half. Each of its 32 high bytes has the high bits of one weight of each quarter, the
/// first quarter lowest. The signed scales follow, and last the scale, low byte first.
pub open spec fn packed(scale: u16, groups: Seq<i8>, levels: Seq<i32>) -> Seq<u8> {
    Seq::new(
        210,
        |i: int|
            if i < 128 {
                let p = i / 64 * 128 + i % 64;
                ((levels[p] + 32) % 16 + 16 * ((levels[p + 64] + 32) % 16)) as u8
            } else if i < 192 {
                let p = (i - 128) / 32 * 128 + i % 32;
                ((levels[p] + 32) / 16 + 4 * ((levels[p + 32] + 32) / 16) + 16 * ((levels[p + 64]
                    + 32) / 16) + 64 * ((levels[p + 96] + 32) / 16)) as u8
            } else if i < 208 {
                (groups[i - 192] as int % 256) as u8
            } else if i == 208 {
                (scale % 256) as u8
            } else {
                (scale / 256) as u8
            },
    )
}

proof fn lemma_low_digits(a: int, b: int)
    requires
        0 <= a < 16,
        0 <= b < 16,
    ensures
        0 <= a + 16 * b < 256,
        (a + 16 * b) % 16 == a,
        (a + 16 * b) / 16 == b,
{
}

proof fn lemma_high_digits(a: int, b: int, c: int, d: int)
    requires
        0 <= a < 4,
        0 <= b < 4,
        0 <= c < 4,
        0 <= d < 4,
    ensures
        0 <= a + 4 * b + 16 * c + 64 * d < 256,
        (a + 4 * b + 16 * c + 64 * d) % 4 == a,
        (a + 4 * b + 16 * c + 64 * d) / 4 % 4 == b,
        (a + 4 * b + 16 * c + 64 * d) / 16 % 4 == c,
        (a + 4 * b + 16 * c + 64 * d) / 64 == d,
{
}

proof fn lemma_packed_low(scale: u16, groups: Seq<i8>, levels: Seq<i32>, h: int, u: int)
    requires
        levels.len() == 256,
        forall|p: int| 0 <= p < 256 ==> -32 <= #[trigger] levels[p] <= 31,
        0 <= h < 2,
        0 <= u < 64,
    ensures
        packed(scale, groups, levels)[64 * h + u] as int % 16 == (levels[128 * h + u] + 32) % 16,
        packed(scale, groups, levels)[64 * h + u] as int / 16 == (levels[128 * h + u + 64] + 32)
            % 16,
{
    let i = 64 * h + u;
    assert(i / 64 == h && i % 64 == u);
    lemma_low_digits((levels[128 * h + u] + 32) % 16, (levels[128 * h + u + 64] + 32) % 16);
}

proof fn lemma_packed_high(scale: u16, groups: Seq<i8>, levels: Seq<i32>, h: int, t: int)
    requires
        levels.len() == 256,
        forall|p: int| 0 <= p < 256 ==> -32 <= #[trigger] levels[p] <= 31,
        0 <= h < 2,
        0 <= t < 32,
    ensures
        ({
            let byte = packed(scale, groups, levels)[128 + 32 * h + t] as int;
            let p = 128 * h + t;
            &&& byte % 4 == (levels[p] + 32) / 16
            &&& byte / 4 % 4 == (levels[p + 32] + 32) / 16
            &&& byte / 16 % 4 == (levels[p + 64] + 32) / 16
            &&& byte / 64 == (levels[p + 96] + 32) / 16
        }),
{
    let i = 128 + 32 * h + t;
    let p = 128 * h + t;
    assert((i - 128) / 32 == h && i % 32 == t);
    assert(-32 <= levels[p] <= 31 && -32 <= levels[p + 32] <= 31);
    assert(-32 <= levels[p + 64] <= 31 && -32 <= levels[p + 96] <= 31);
    lemma_high_digits(
        (levels[p] + 32) / 16,
        (levels[p + 32] + 32) / 16,
        (levels[p + 64] + 32) / 16,
        (levels[p + 96] + 32) / 16,
    );
}

proof fn lemma_packed_level(scale: u16, groups: Seq<i8>, levels: Seq<i32>, j: int)
    requires
        levels.len() == 256,
        forall|p: int| 0 <= p < 256 ==> -32 <= #[trigger] levels[p] <= 31,
        0 <= j < 256,
    ensures
        level_in(packed(scale, groups, levels), j) == levels[j],
{
    let h = j / 128;
    let q = j % 128 / 32;
    let t = j % 32;
    assert(j == 128 * h + 32 * q + t);
    lemma_packed_low(scale, groups, levels, h, 32 * (q % 2) + t);
    lemma_packed_high(scale, groups, levels, h, t);
    assert(q == 0 || q == 1 || q == 2 || q == 3);
    assert(-32 <= levels[j] <= 31);
}

/// What a block was put together from is what it is unpacked to.
pub proof fn packed_blocks_are_unpacked(scale: u16, groups: Seq<i8>, levels: Seq<i32>)
    requires
        groups.len() == 16,
        levels.len() == 256,
        forall|p: int| 0 <= p < 256 ==> -32 <= #[trigger] levels[p] <= 31,
    ensures
        scales_of(packed(scale, groups, levels), 256) == seq![scale],
        group_scales_of(packed(scale, groups, levels), 256) == groups,
        levels_of(packed(scale, groups, levels), 256) == levels,
{
    let block = packed(scale, groups, levels);
    assert(scales_of(block, 256) =~= seq![scale]);
    assert forall|g: int| 0 <= g < 16 implies group_scales_of(block, 256)[g] == groups[g] by {
        assert(g / 16 == 0 && g % 16 == g);
        assert(block[192 + g] == (groups[g] as int % 256) as u8);
    }
    assert(group_scales_of(block, 256) =~= groups);
    assert(block_at(block, 0) =~= block);
    assert forall|j: int| 0 <= j < 256 implies levels_of(block, 256)[j] == levels[j] by {
        assert(j / 256 == 0 && j % 256 == j);
        lemma_packed_level(scale, groups, levels, j);
    }
    assert(levels_of(block, 256) =~= levels);
}

} // verus!
