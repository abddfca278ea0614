//! What holds of every row of q4_0 weights.

use crate::expert_bank::ExpertShape;
use crate::q4_0::{
    block_dot, clamped, code_bytes, code_bytes_r, code_of, levels_of, matrix_bytes, packed,
    partial_dot, q4r_bytes, q4r_scales, repacked, repacked_rows, row_dots, row_dots_r, row_of,
    scale_at, scales_of, zeros,
};
use vstd::prelude::*;

verus! {

/// Unpacking undoes packing: a packed row holds the scales that went in, and the
/// codes that went in, brought into range, less 8.
pub proof fn unpacking_undoes_packing(scales: Seq<u16>, codes: Seq<i32>)
    requires
        codes.len() % 32 == 0,
        scales.len() == codes.len() / 32,
    ensures
        scales_of(packed(scales, codes), codes.len()) == scales,
        levels_of(packed(scales, codes), codes.len()) == codes.map_values(
            |v: i32| (clamped(v) - 8) as i32,
        ),
{
    let row = packed(scales, codes);
    assert forall|b: int| 0 <= b < scales.len() implies scale_at(row, b) == scales[b] by {
        assert(row[18 * b] == (scales[b] % 256) as u8);
        assert(row[18 * b + 1] == (scales[b] / 256) as u8);
    }
    assert(scales_of(row, codes.len()) =~= scales);
    let want = codes.map_values(|v: i32| (clamped(v) - 8) as i32);
    let got = levels_of(row, codes.len());
    assert forall|j: int| 0 <= j < codes.len() implies got[j] == want[j] by {
        let b = j / 32;
        let i = j % 32;
        let at = if i < 16 {
            i
        } else {
            i - 16
        };
        assert(code_bytes(row, b)[at] == row[18 * b + 2 + at]);
        assert((18 * b + 2 + at) / 18 == b && (18 * b + 2 + at) % 18 == at + 2);
        assert(row[18 * b + 2 + at] == (clamped(codes[32 * b + at]) + 16 * clamped(
            codes[32 * b + at + 16],
        )) as u8);
        assert(code_of(code_bytes(row, b), i) == clamped(codes[j]));
    }
    assert(got =~= want);
}

/// Packing undoes unpacking: the scales and codes of a row pack into that row.
pub proof fn packing_undoes_unpacking(row: Seq<u8>, n: nat)
    requires
        n % 32 == 0,
        row.len() == n / 32 * 18,
    ensures
        packed(
            scales_of(row, n),
            levels_of(row, n).map_values(|v: i32| (v + 8) as i32),
        ) == row,
{
    let codes = levels_of(row, n).map_values(|v: i32| (v + 8) as i32);
    let got = packed(scales_of(row, n), codes);
    assert forall|j: int| 0 <= j < row.len() implies got[j] == row[j] by {
        let b = j / 18;
        let i = j % 18 - 2;
        if i < 0 {
            assert(scales_of(row, n)[b] == row[18 * b] + 256 * row[18 * b + 1]);
        } else {
            let v = row[j];
            assert(code_bytes(row, b)[i] == v);
            assert((32 * b + i) / 32 == b && (32 * b + i) % 32 == i);
            assert((32 * b + i + 16) / 32 == b && (32 * b + i + 16) % 32 == i + 16);
            assert(codes[32 * b + i] == v % 16);
            assert(codes[32 * b + i + 16] == v / 16);
            assert(v == v as int % 16 + 16 * (v as int / 16));
        }
    }
    assert(got =~= row);
}

/// A row in the q4r layout has the dot products of the row it was made of.
pub proof fn repacking_keeps_dots(src: Seq<u8>, before: Seq<u8>, qs: Seq<i8>)
    requires
        qs.len() % 32 == 0,
        src.len() == qs.len() / 32 * 18,
    ensures
        row_dots_r(repacked(src, before, qs.len() as int), qs) == row_dots(src, qs),
{
    let k = qs.len() as int;
    let row = repacked(src, before, k);
    let at = q4r_scales(k);
    assert(at >= k / 32 * 2);
    assert forall|b: int| 0 <= b < k / 32 implies row_dots_r(row, qs)[b] == row_dots(src, qs)[b] by {
        assert(row[2 * b] == src[18 * b]);
        assert(row[2 * b + 1] == src[18 * b + 1]);
        assert forall|i: int| 0 <= i < 16 implies #[trigger] code_bytes_r(row, k, b)[i]
            == code_bytes(src, b)[i] by {
            assert((16 * b + i) / 16 == b && (16 * b + i) % 16 == i);
            assert(row[at + 16 * b + i] == src[18 * b + 2 + i]);
        }
        assert(code_bytes_r(row, k, b) =~= code_bytes(src, b));
    }
    assert(row_dots_r(row, qs) =~= row_dots(src, qs));
}

/// The products of the first `n` codes with the entries, all added up.
pub open spec fn code_sum(bytes: Seq<u8>, xs: Seq<i8>, n: int) -> int
    decreases n,
{
    if n <= 0 {
        0
    } else {
        code_sum(bytes, xs, n - 1) + code_of(bytes, n - 1) * xs[n - 1]
    }
}

/// The first `n` entries, all added up.
pub open spec fn entry_sum(xs: Seq<i8>, n: int) -> int
    decreases n,
{
    if n <= 0 {
        0
    } else {
        entry_sum(xs, n - 1) + xs[n - 1]
    }
}

proof fn lemma_offset_folds_out(bytes: Seq<u8>, xs: Seq<i8>, n: int)
    requires
        0 <= n,
    ensures
        partial_dot(bytes, xs, 0, n) == code_sum(bytes, xs, n) - 8 * entry_sum(xs, n),
    decreases n,
{
    if n > 0 {
        lemma_offset_folds_out(bytes, xs, n - 1);
        let c = code_of(bytes, n - 1);
        let x = xs[n - 1] as int;
        assert((c - 8) * x == c * x - 8 * x) by (nonlinear_arith);
    }
}

/// The offset of the codes folds out of a block's dot product: it is the codes
/// times the entries, less 8 times the sum of the entries.
pub proof fn offset_folds_out(bytes: Seq<u8>, xs: Seq<i8>)
    ensures
        block_dot(bytes, xs) == code_sum(bytes, xs, 32) - 8 * entry_sum(xs, 32),
{
    lemma_offset_folds_out(bytes, xs, 32);
}

proof fn lemma_partial_dot_bound(bytes: Seq<u8>, xs: Seq<i8>, n: int)
    requires
        0 <= n <= 32,
        bytes.len() == 16,
    ensures
        -1024 * n <= partial_dot(bytes, xs, 0, n) <= 1024 * n,
    decreases n,
{
    if n > 0 {
        lemma_partial_dot_bound(bytes, xs, n - 1);
        let c = code_of(bytes, n - 1) - 8;
        let x = xs[n - 1] as int;
        assert(-8 <= c <= 7);
        assert(-1024 <= c * x <= 1024) by (nonlinear_arith)
            requires
                -8 <= c <= 7,
                -128 <= x <= 127,
        ;
    }
}

/// A block's dot product is at most 32768 either way.
pub proof fn block_dot_is_small(bytes: Seq<u8>, xs: Seq<i8>)
    requires
        bytes.len() == 16,
    ensures
        -32768 <= block_dot(bytes, xs) <= 32768,
{
    lemma_partial_dot_bound(bytes, xs, 32);
}

/// A matrix in the q4r layout has, row by row, the dot products of the matrix it was
/// made of.
pub proof fn laid_out_rows_keep_dots(src: Seq<u8>, rows: int, k: int, r: int, qs: Seq<i8>)
    requires
        0 < k,
        k % 32 == 0,
        qs.len() == k,
        0 <= r < rows,
        src.len() == matrix_bytes(rows, k),
    ensures
        row_dots_r(row_of(repacked_rows(src, rows, k), q4r_bytes(k), r), qs) == row_dots(
            row_of(src, k / 32 * 18, r),
            qs,
        ),
{
    let len = q4r_bytes(k);
    let all = repacked_rows(src, rows, k);
    let row = row_of(src, k / 32 * 18, r);
    assert(0 <= r * len && r * len + len <= rows * len) by (nonlinear_arith)
        requires
            0 <= r < rows,
            0 <= len,
    ;
    let n = k / 32 * 18;
    assert(0 <= r * n && r * n + n <= rows * n) by (nonlinear_arith)
        requires
            0 <= r < rows,
            0 <= n,
    ;
    assert forall|j: int| 0 <= j < len implies #[trigger] row_of(all, len, r)[j] == repacked(
        row,
        zeros(len),
        k,
    )[j] by {
        crate::q4_0::lemma_place(r * len + j, r, len);
    }
    assert(row_of(all, len, r) =~= repacked(row, zeros(len), k));
    repacking_keeps_dots(row, zeros(len), qs);
}

/// An expert in a bank has the dot products that its tensors have: those of its first
/// matrix, and behind them those of its second.
pub proof fn banked_expert_keeps_dots(
    shape: ExpertShape,
    gate_up: Seq<u8>,
    down: Seq<u8>,
    e: int,
    r: int,
    qs: Seq<i8>,
)
    requires
        shape.wf(),
        0 <= e,
        (e + 1) * matrix_bytes(shape.rows_in as int, shape.k_in as int) <= gate_up.len(),
        (e + 1) * matrix_bytes(shape.rows_out as int, shape.k_out as int) <= down.len(),
    ensures
        ({
            let n = matrix_bytes(shape.rows_in as int, shape.k_in as int);
            let k = shape.k_in as int;
            let first = shape.expert(gate_up, down, e).take(shape.bytes_in());
            qs.len() == k && 0 <= r < shape.rows_in ==> row_dots_r(
                row_of(first, q4r_bytes(k), r),
                qs,
            ) == row_dots(row_of(row_of(gate_up, n, e), k / 32 * 18, r), qs)
        }),
        ({
            let n = matrix_bytes(shape.rows_out as int, shape.k_out as int);
            let k = shape.k_out as int;
            let second = shape.expert(gate_up, down, e).skip(shape.bytes_in());
            qs.len() == k && 0 <= r < shape.rows_out ==> row_dots_r(
                row_of(second, q4r_bytes(k), r),
                qs,
            ) == row_dots(row_of(row_of(down, n, e), k / 32 * 18, r), qs)
        }),
{
    let n_in = matrix_bytes(shape.rows_in as int, shape.k_in as int);
    let n_out = matrix_bytes(shape.rows_out as int, shape.k_out as int);
    lemma_run(gate_up, n_in, e, shape.rows_in as int, shape.k_in as int);
    lemma_run(down, n_out, e, shape.rows_out as int, shape.k_out as int);
    let first = repacked_rows(
        row_of(gate_up, n_in, e),
        shape.rows_in as int,
        shape.k_in as int,
    );
    let second = repacked_rows(
        row_of(down, n_out, e),
        shape.rows_out as int,
        shape.k_out as int,
    );
    let whole = shape.expert(gate_up, down, e);
    assert(shape.rows_in * q4r_bytes(shape.k_in as int) >= 0) by (nonlinear_arith)
        requires
            q4r_bytes(shape.k_in as int) >= 0,
    ;
    assert(shape.rows_out * q4r_bytes(shape.k_out as int) >= 0) by (nonlinear_arith)
        requires
            q4r_bytes(shape.k_out as int) >= 0,
    ;
    assert(whole.take(shape.bytes_in()) =~= first);
    assert(whole.skip(shape.bytes_in()) =~= second);
    if qs.len() == shape.k_in && 0 <= r < shape.rows_in {
        laid_out_rows_keep_dots(
            row_of(gate_up, n_in, e),
            shape.rows_in as int,
            shape.k_in as int,
            r,
            qs,
        );
    }
    if qs.len() == shape.k_out && 0 <= r < shape.rows_out {
        laid_out_rows_keep_dots(
            row_of(down, n_out, e),
            shape.rows_out as int,
            shape.k_out as int,
            r,
            qs,
        );
    }
}

proof fn lemma_run(all: Seq<u8>, n: int, e: int, rows: int, k: int)
    requires
        n == matrix_bytes(rows, k),
        0 <= rows,
        0 <= k,
        0 <= e,
        (e + 1) * n <= all.len(),
    ensures
        row_of(all, n, e).len() == n,
{
    assert(0 <= n) by (nonlinear_arith)
        requires
            n == rows * (k / 32 * 18),
            0 <= rows,
            0 <= k / 32 * 18,
    ;
    assert(0 <= e * n && e * n + n == (e + 1) * n) by (nonlinear_arith)
        requires
            0 <= e,
            0 <= n,
    ;
}

/// The format of a packed row: each block is its scale, low byte first, and 16 bytes,
/// each of which has a code of the first half of the block in its low half and the one
/// 16 places on in its high half. Codes below 0 count as 0 and above 15 as 15.
pub proof fn packed_rows_have_the_format(scales: Seq<u16>, codes: Seq<i32>, b: int, i: int)
    requires
        codes.len() % 32 == 0,
        scales.len() == codes.len() / 32,
        0 <= b < scales.len(),
        0 <= i < 16,
    ensures
        ({
            let row = packed(scales, codes);
            let low = codes[32 * b + i];
            let high = codes[32 * b + i + 16];
            &&& row.len() == 18 * scales.len()
            &&& row[18 * b] + 256 * row[18 * b + 1] == scales[b]
            &&& row[18 * b + 2 + i] as int % 16 == if low < 0 {
                0
            } else if low > 15 {
                15
            } else {
                low as int
            }
            &&& row[18 * b + 2 + i] as int / 16 == if high < 0 {
                0
            } else if high > 15 {
                15
            } else {
                high as int
            }
        }),
{
    let row = packed(scales, codes);
    assert((18 * b) / 18 == b && (18 * b) % 18 == 0);
    assert((18 * b + 1) / 18 == b && (18 * b + 1) % 18 == 1);
    assert((18 * b + 2 + i) / 18 == b && (18 * b + 2 + i) % 18 == i + 2);
    let (x, y) = (clamped(codes[32 * b + i]), clamped(codes[32 * b + i + 16]));
    assert((x + 16 * y) % 16 == x && (x + 16 * y) / 16 == y);
    assert(row[18 * b + 2 + i] == (x + 16 * y) as u8);
}

/// The format of a row that is unpacked: a weight is the code in its half of its byte,
/// less 8.
pub proof fn rows_are_unpacked_by_the_format(row: Seq<u8>, n: nat, b: int, i: int)
    requires
        n % 32 == 0,
        row.len() == n / 32 * 18,
        0 <= b < n / 32,
        0 <= i < 16,
    ensures
        scales_of(row, n).len() == n / 32,
        scales_of(row, n)[b] == row[18 * b] + 256 * row[18 * b + 1],
        levels_of(row, n).len() == n,
        levels_of(row, n)[32 * b + i] == row[18 * b + 2 + i] as int % 16 - 8,
        levels_of(row, n)[32 * b + 16 + i] == row[18 * b + 2 + i] as int / 16 - 8,
{
    assert((32 * b + i) / 32 == b && (32 * b + i) % 32 == i);
    assert((32 * b + 16 + i) / 32 == b && (32 * b + 16 + i) % 32 == 16 + i);
    assert(code_bytes(row, b)[i] == row[18 * b + 2 + i]);
}

/// The products of weights and entries, all added up.
pub open spec fn dot(weights: Seq<i32>, xs: Seq<i8>) -> int
    decreases weights.len(),
{
    if weights.len() == 0 {
        0
    } else {
        dot(weights.drop_last(), xs.drop_last()) + weights.last() * xs.last()
    }
}

proof fn lemma_dot(row: Seq<u8>, qs: Seq<i8>, b: int, m: int)
    requires
        qs.len() % 32 == 0,
        row.len() == qs.len() / 32 * 18,
        0 <= b < qs.len() / 32,
        0 <= m <= 32,
    ensures
        partial_dot(code_bytes(row, b), crate::q4_0::entries_of(qs, b), 0, m) == dot(
            levels_of(row, qs.len()).subrange(32 * b, 32 * b + m),
            qs.subrange(32 * b, 32 * b + m),
        ),
    decreases m,
{
    let weights = levels_of(row, qs.len()).subrange(32 * b, 32 * b + m);
    let xs = qs.subrange(32 * b, 32 * b + m);
    if m > 0 {
        lemma_dot(row, qs, b, m - 1);
        assert(weights.drop_last() =~= levels_of(row, qs.len()).subrange(32 * b, 32 * b + m - 1));
        assert(xs.drop_last() =~= qs.subrange(32 * b, 32 * b + m - 1));
        assert((32 * b + m - 1) / 32 == b && (32 * b + m - 1) % 32 == m - 1);
        assert(weights.last() == code_of(code_bytes(row, b), m - 1) - 8);
        assert(crate::q4_0::entries_of(qs, b)[m - 1] == xs.last());
    }
}

/// What a block adds to a dot product is what its name says: its weights times the
/// entries that stand where they stand, all added up, beside its scale.
pub proof fn block_dots_are_dot_products(row: Seq<u8>, qs: Seq<i8>, b: int)
    requires
        qs.len() % 32 == 0,
        row.len() == qs.len() / 32 * 18,
        0 <= b < qs.len() / 32,
    ensures
        row_dots(row, qs).len() == qs.len() / 32,
        row_dots(row, qs)[b].scale == scales_of(row, qs.len())[b],
        row_dots(row, qs)[b].sum == dot(
            levels_of(row, qs.len()).subrange(32 * b, 32 * b + 32),
            qs.subrange(32 * b, 32 * b + 32),
        ),
{
    lemma_dot(row, qs, b, 32);
    block_dot_is_small(code_bytes(row, b), crate::q4_0::entries_of(qs, b));
}

/// The q4r layout: all scales in front, two bytes each, and from the next multiple of 16
/// on the 16 code bytes of each block.
pub proof fn repacked_rows_have_the_layout(src: Seq<u8>, before: Seq<u8>, k: int, b: int, i: int)
    requires
        k % 32 == 0,
        src.len() == k / 32 * 18,
        0 <= b < k / 32,
        0 <= i < 16,
    ensures
        ({
            let row = repacked(src, before, k);
            let scales = 2 * (k / 32);
            let codes = if scales % 16 == 0 {
                scales
            } else {
                scales + 16 - scales % 16
            };
            &&& row.len() == codes + 16 * (k / 32)
            &&& row[2 * b] == src[18 * b]
            &&& row[2 * b + 1] == src[18 * b + 1]
            &&& row[codes + 16 * b + i] == src[18 * b + 2 + i]
        }),
{
    let at = q4r_scales(k);
    assert((16 * b + i) / 16 == b && (16 * b + i) % 16 == i);
    assert(at >= k / 32 * 2);
}

/// The rows of a matrix are laid out one after the other.
pub proof fn matrices_are_laid_out_row_by_row(src: Seq<u8>, rows: int, k: int, r: int)
    requires
        0 < k,
        k % 32 == 0,
        0 <= r < rows,
        src.len() == rows * (18 * (k / 32)),
    ensures
        ({
            let n = 18 * (k / 32);
            let len = repacked(src.subrange(r * n, r * n + n), zeros(q4r_bytes(k)), k).len();
            let all = repacked_rows(src, rows, k);
            &&& all.len() == rows * len
            &&& all.subrange(r * len, r * len + len) == repacked(
                src.subrange(r * n, r * n + n),
                zeros(q4r_bytes(k)),
                k,
            )
        }),
{
    let len = q4r_bytes(k);
    let all = repacked_rows(src, rows, k);
    let n = k / 32 * 18;
    let row = src.subrange(r * n, r * n + n);
    assert(0 <= r * len && r * len + len <= rows * len) by (nonlinear_arith)
        requires
            0 <= r < rows,
            0 <= len,
    ;
    assert forall|j: int| 0 <= j < len implies #[trigger] all.subrange(
        r * len,
        r * len + len,
    )[j] == repacked(row, zeros(len), k)[j] by {
        crate::q4_0::lemma_place(r * len + j, r, len);
    }
    assert(all.subrange(r * len, r * len + len) =~= repacked(row, zeros(len), k));
}

/// The rows of a matrix stand one after the other.
pub proof fn rows_stand_one_after_the_other(w: Seq<u8>, len: int, r: int, i: int)
    requires
        0 <= r * len,
        r * len + len <= w.len(),
        0 <= i < len,
    ensures
        row_of(w, len, r).len() == len,
        row_of(w, len, r)[i] == w[r * len + i],
{
}

/// An expert that is copied as it is has its parts one after the other, each from its own
/// place in its tensor.
pub proof fn copied_experts_have_their_parts(
    a: Seq<u8>,
    a_len: int,
    b: Seq<u8>,
    b_len: int,
    c: Seq<u8>,
    c_len: int,
    e: int,
)
    requires
        0 <= e,
        0 <= a_len && (e + 1) * a_len <= a.len(),
        0 <= b_len && (e + 1) * b_len <= b.len(),
        0 <= c_len && (e + 1) * c_len <= c.len(),
    ensures
        ({
            let whole = crate::expert_bank::joined_expert(a, a_len, b, b_len, c, c_len, e);
            &&& whole.len() == a_len + b_len + c_len
            &&& whole.take(a_len) == a.subrange(e * a_len, e * a_len + a_len)
            &&& whole.subrange(a_len, a_len + b_len) == b.subrange(e * b_len, e * b_len + b_len)
            &&& whole.skip(a_len + b_len) == c.subrange(e * c_len, e * c_len + c_len)
        }),
{
    assert(0 <= e * a_len && e * a_len + a_len == (e + 1) * a_len) by (nonlinear_arith)
        requires
            0 <= e,
            0 <= a_len,
    ;
    assert(0 <= e * b_len && e * b_len + b_len == (e + 1) * b_len) by (nonlinear_arith)
        requires
            0 <= e,
            0 <= b_len,
    ;
    assert(0 <= e * c_len && e * c_len + c_len == (e + 1) * c_len) by (nonlinear_arith)
        requires
            0 <= e,
            0 <= c_len,
    ;
    let whole = crate::expert_bank::joined_expert(a, a_len, b, b_len, c, c_len, e);
    assert(whole.take(a_len) =~= a.subrange(e * a_len, e * a_len + a_len));
    assert(whole.subrange(a_len, a_len + b_len) =~= b.subrange(e * b_len, e * b_len + b_len));
    assert(whole.skip(a_len + b_len) =~= c.subrange(e * c_len, e * c_len + c_len));
}

/// Activations are brought into the range of a signed byte, and otherwise kept.
pub proof fn activations_keep_what_is_in_range(v: i32)
    ensures
        -127 <= v <= 127 ==> crate::q4_0::clamped_8(v) == v,
        v > 127 ==> crate::q4_0::clamped_8(v) == 127,
        v < -127 ==> crate::q4_0::clamped_8(v) == -127,
{
}

} // verus!
