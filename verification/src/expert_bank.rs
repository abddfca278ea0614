//! The host-side bank of a layer's experts. Each expert takes one run of bytes:
//! its gate-and-up matrix and then its down matrix, both in the q4r layout.

use crate::par::{fill_chunks, ChunkFill};
use crate::q4_0::{
    lemma_place, matrix_bytes, matrix_bytes_r, q4r_row_bytes, repack_row_q4r, repacked_rows,
    row_bytes,
};
use vstd::prelude::*;

verus! {

/// The sizes of an expert: `rows_in` rows of `k_in` weights, and then `rows_out`
/// rows of `k_out` weights.
#[derive(Clone, Copy, Debug, PartialEq, Eq)]
pub struct ExpertShape {
    pub rows_in: usize,
    pub k_in: usize,
    pub rows_out: usize,
    pub k_out: usize,
}

impl ExpertShape {
    /// Rows are made of whole blocks, and everything fits the machine.
    pub open spec fn wf(self) -> bool {
        &&& self.k_in > 0
        &&& self.k_in % 32 == 0
        &&& self.k_out > 0
        &&& self.k_out % 32 == 0
        &&& matrix_bytes(self.rows_in as int, self.k_in as int) <= usize::MAX
        &&& matrix_bytes(self.rows_out as int, self.k_out as int) <= usize::MAX
        &&& self.bytes() <= usize::MAX
    }

    /// Bytes of its first matrix in the bank.
    pub open spec fn bytes_in(self) -> int {
        matrix_bytes_r(self.rows_in as int, self.k_in as int)
    }

    /// Bytes of an expert in the bank.
    pub open spec fn bytes(self) -> int {
        self.bytes_in() + matrix_bytes_r(self.rows_out as int, self.k_out as int)
    }

    /// What the bank holds of expert `e`, out of the matrices of all experts of a
    /// layer.
    pub open spec fn expert(self, gate_up: Seq<u8>, down: Seq<u8>, e: int) -> Seq<u8> {
        let n_in = matrix_bytes(self.rows_in as int, self.k_in as int);
        let n_out = matrix_bytes(self.rows_out as int, self.k_out as int);
        repacked_rows(
            crate::q4_0::row_of(gate_up, n_in, e),
            self.rows_in as int,
            self.k_in as int,
        ) + repacked_rows(
            crate::q4_0::row_of(down, n_out, e),
            self.rows_out as int,
            self.k_out as int,
        )
    }

    /// Bytes of an expert in the bank, and how many of them are its first
    /// matrix. There are none where a matrix is too large for the machine.
    pub fn sizes(&self) -> (r: Option<(usize, usize)>)
        requires
            self.k_in > 0,
            self.k_in % 32 == 0,
            self.k_out > 0,
            self.k_out % 32 == 0,
        ensures
            match r {
                Some((all, first)) => self.wf() && all == self.bytes() && first == self.bytes_in(),
                None => !self.wf(),
            },
    {
        let a = self.rows_in.checked_mul(row_bytes(self.k_in));
        let b = self.rows_out.checked_mul(row_bytes(self.k_out));
        match (a, b) {
            (Some(_), Some(_)) => {},
            _ => {
                return None;
            },
        }
        proof {
            let k = self.k_in as int;
            let n = self.rows_in as int;
            assert(n * crate::q4_0::q4r_bytes(k) >= 0) by (nonlinear_arith)
                requires
                    n >= 0,
                    crate::q4_0::q4r_bytes(k) >= 0,
            ;
            let m = self.rows_out as int;
            let l = self.k_out as int;
            assert(m * crate::q4_0::q4r_bytes(l) >= 0) by (nonlinear_arith)
                requires
                    m >= 0,
                    crate::q4_0::q4r_bytes(l) >= 0,
            ;
        }
        match self.rows_in.checked_mul(q4r_row_bytes(self.k_in)) {
            None => None,
            Some(first) => match self.rows_out.checked_mul(q4r_row_bytes(self.k_out)) {
                None => None,
                Some(second) => match first.checked_add(second) {
                    None => None,
                    Some(all) => Some((all, first)),
                },
            },
        }
    }
}

proof fn lemma_bounds(rows: int, len: int, r: int)
    requires
        0 <= r < rows,
        0 <= len,
    ensures
        0 <= r * len,
        r * len + len == (r + 1) * len,
        (r + 1) * len <= rows * len,
{
    assert(0 <= r * len && r * len + len == (r + 1) * len && (r + 1) * len <= rows * len)
        by (nonlinear_arith)
        requires
            0 <= r < rows,
            0 <= len,
    ;
}

/// Moves the rows of a q4_0 matrix into a zeroed buffer, in the q4r layout.
fn repack_rows(src: &[u8], dst: &mut [u8], rows: usize, k: usize)
    requires
        k > 0,
        k % 32 == 0,
        src@.len() == matrix_bytes(rows as int, k as int),
        old(dst)@ == crate::q4_0::zeros(matrix_bytes_r(rows as int, k as int)),
        matrix_bytes_r(rows as int, k as int) <= usize::MAX,
    ensures
        final(dst)@ == repacked_rows(src@, rows as int, k as int),
{
    let ghost n: usize = src.len();
    let row: usize = row_bytes(k);
    let row_r: usize = q4r_row_bytes(k);
    let ghost goal = repacked_rows(src@, rows as int, k as int);
    let ghost size = matrix_bytes_r(rows as int, k as int);
    proof {
        assert(rows * row_r >= 0) by (nonlinear_arith);
    }
    let mut r: usize = 0;
    while r < rows
        invariant
            r <= rows,
            k > 0,
            k % 32 == 0,
            row == k as int / 32 * 18,
            row_r == crate::q4_0::q4r_bytes(k as int),
            row_r > 0,
            n == src@.len() == rows * row,
            size == rows * row_r <= usize::MAX,
            dst@.len() == size,
            goal == repacked_rows(src@, rows as int, k as int),
            goal.len() == size,
            forall|j: int| 0 <= j < r * row_r ==> #[trigger] dst@[j] == goal[j],
            forall|j: int| r * row_r <= j < size ==> #[trigger] dst@[j] == 0,
        decreases rows - r,
    {
        proof {
            lemma_bounds(rows as int, row as int, r as int);
            lemma_bounds(rows as int, row_r as int, r as int);
        }
        let ghost before = dst@;
        let from: usize = r * row;
        let at: usize = r * row_r;
        let (_head, rest) = dst.split_at_mut(at);
        let (here, _tail) = rest.split_at_mut(row_r);
        assert(here@ =~= crate::q4_0::zeros(row_r as int));
        repack_row_q4r(&src[from..from + row], here, k);
        proof {
            let want = crate::q4_0::repacked(
                crate::q4_0::row_of(src@, row as int, r as int),
                crate::q4_0::zeros(row_r as int),
                k as int,
            );
            assert(dst@ =~= before.take(at as int) + want + before.skip(at + row_r));
            assert forall|j: int| 0 <= j < (r + 1) * row_r implies #[trigger] dst@[j] == goal[j] by {
                if j >= at {
                    lemma_place(j, r as int, row_r as int);
                }
            }
        }
        r = r + 1;
    }
    assert(dst@ =~= goal);
}

/// The experts of a layer.
struct LayerExperts<'a> {
    gate_up: &'a [u8],
    down: &'a [u8],
    shape: ExpertShape,
    size_in: usize,
}

impl<'a> ChunkFill<u8> for LayerExperts<'a> {
    closed spec fn chunk(&self, i: int) -> Seq<u8> {
        self.shape.expert(self.gate_up@, self.down@, i)
    }

    closed spec fn ready(&self, i: int, before: Seq<u8>) -> bool {
        let n_in = matrix_bytes(self.shape.rows_in as int, self.shape.k_in as int);
        let n_out = matrix_bytes(self.shape.rows_out as int, self.shape.k_out as int);
        &&& self.shape.wf()
        &&& self.size_in == self.shape.bytes_in()
        &&& self.gate_up@.len() <= usize::MAX
        &&& self.down@.len() <= usize::MAX
        &&& 0 <= i * n_in
        &&& 0 <= i * n_out
        &&& i * n_in + n_in <= self.gate_up@.len()
        &&& i * n_out + n_out <= self.down@.len()
        &&& before == crate::q4_0::zeros(self.shape.bytes())
    }

    fn fill(&self, i: usize, dst: &mut [u8]) {
        let s = self.shape;
        let n_in: usize = s.rows_in * row_bytes(s.k_in);
        let n_out: usize = s.rows_out * row_bytes(s.k_out);
        let from_in: usize = i * n_in;
        let from_out: usize = i * n_out;
        let gate_up = self.gate_up;
        let down = self.down;
        proof {
            assert(self.shape.rows_in * crate::q4_0::q4r_bytes(self.shape.k_in as int) >= 0)
                by (nonlinear_arith)
                requires
                    crate::q4_0::q4r_bytes(self.shape.k_in as int) >= 0,
            ;
            assert(self.shape.rows_out * crate::q4_0::q4r_bytes(self.shape.k_out as int) >= 0)
                by (nonlinear_arith)
                requires
                    crate::q4_0::q4r_bytes(self.shape.k_out as int) >= 0,
            ;
        }
        let (first, second) = dst.split_at_mut(self.size_in);
        assert(first@ =~= crate::q4_0::zeros(
            matrix_bytes_r(s.rows_in as int, s.k_in as int),
        ));
        assert(second@ =~= crate::q4_0::zeros(
            matrix_bytes_r(s.rows_out as int, s.k_out as int),
        ));
        repack_rows(&gate_up[from_in..from_in + n_in], first, s.rows_in, s.k_in);
        repack_rows(&down[from_out..from_out + n_out], second, s.rows_out, s.k_out);
    }
}

/// Fills the zeroed bank of a layer with its experts, out of their q4_0 matrices.
pub fn fill_layer(gate_up: &[u8], down: &[u8], shape: ExpertShape, n_experts: usize, bank: &mut [u8])
    requires
        shape.wf(),
        shape.bytes() > 0,
        n_experts * matrix_bytes(shape.rows_in as int, shape.k_in as int) <= gate_up@.len(),
        n_experts * matrix_bytes(shape.rows_out as int, shape.k_out as int) <= down@.len(),
        old(bank)@ == crate::q4_0::zeros(n_experts * shape.bytes()),
        n_experts * shape.bytes() <= usize::MAX,
    ensures
        final(bank)@.len() == n_experts * shape.bytes(),
        forall|e: int|
            0 <= e < n_experts ==> #[trigger] crate::q4_0::row_of(final(bank)@, shape.bytes(), e)
                == shape.expert(gate_up@, down@, e),
{
    let ghost a: usize = gate_up.len();
    let ghost b: usize = down.len();
    proof {
        assert(shape.rows_in * crate::q4_0::q4r_bytes(shape.k_in as int) >= 0) by (nonlinear_arith)
            requires
                crate::q4_0::q4r_bytes(shape.k_in as int) >= 0,
        ;
        assert(shape.rows_out * crate::q4_0::q4r_bytes(shape.k_out as int) >= 0)
            by (nonlinear_arith)
            requires
                crate::q4_0::q4r_bytes(shape.k_out as int) >= 0,
        ;
    }
    let size_in: usize = shape.rows_in * q4r_row_bytes(shape.k_in);
    let size: usize = size_in + shape.rows_out * q4r_row_bytes(shape.k_out);
    let job = LayerExperts { gate_up, down, shape, size_in };
    let ghost start = bank@;
    proof {
        let n = n_experts as int;
        assert(n * size >= 0) by (nonlinear_arith)
            requires
                n >= 0,
        ;
        vstd::arithmetic::div_mod::lemma_div_multiples_vanish(n, size as int);
        assert(n * size == size * n) by (nonlinear_arith);
        let n_in = matrix_bytes(shape.rows_in as int, shape.k_in as int);
        let n_out = matrix_bytes(shape.rows_out as int, shape.k_out as int);
        assert(n_in >= 0) by (nonlinear_arith)
            requires
                n_in == shape.rows_in * (shape.k_in as int / 32 * 18),
        ;
        assert(n_out >= 0) by (nonlinear_arith)
            requires
                n_out == shape.rows_out * (shape.k_out as int / 32 * 18),
        ;
        assert forall|e: int| 0 <= e < n_experts implies job.ready(
            e,
            #[trigger] crate::par::nth_chunk(start, size as nat, e),
        ) by {
            lemma_bounds(n, size as int, e);
            lemma_bounds(n, n_in, e);
            lemma_bounds(n, n_out, e);
            assert(crate::par::nth_chunk(start, size as nat, e) =~= crate::q4_0::zeros(
                shape.bytes(),
            ));
        }
    }
    fill_chunks(bank, size, &job);
    assert forall|e: int| 0 <= e < n_experts implies #[trigger] crate::q4_0::row_of(
        bank@,
        shape.bytes(),
        e,
    ) == shape.expert(gate_up@, down@, e) by {
        assert(crate::par::nth_chunk(bank@, size as nat, e) == job.chunk(e));
    }
}

/// Copies a run of bytes to a place in a buffer.
fn copy_run(src: &[u8], from: usize, len: usize, dst: &mut [u8], at: usize)
    requires
        from + len <= src@.len() <= usize::MAX,
        at + len <= old(dst)@.len() <= usize::MAX,
    ensures
        final(dst)@ == old(dst)@.take(at as int) + src@.subrange(from as int, from + len) + old(
            dst,
        )@.skip(at + len),
{
    let mut i: usize = 0;
    while i < len
        invariant
            i <= len,
            from + len <= src@.len() <= usize::MAX,
            at + len <= dst@.len() <= usize::MAX,
            dst@.len() == old(dst)@.len(),
            forall|j: int| 0 <= j < at ==> #[trigger] dst@[j] == old(dst)@[j],
            forall|j: int| at <= j < at + i ==> #[trigger] dst@[j] == src@[from + j - at],
            forall|j: int| at + i <= j < dst@.len() ==> #[trigger] dst@[j] == old(dst)@[j],
        decreases len - i,
    {
        dst[at + i] = src[from + i];
        i = i + 1;
    }
    assert(dst@ =~= old(dst)@.take(at as int) + src@.subrange(from as int, from + len) + old(
        dst,
    )@.skip(at + len));
}

/// What an expert's run holds that is made of its part of each of three tensors.
pub open spec fn joined_expert(
    a: Seq<u8>,
    a_len: int,
    b: Seq<u8>,
    b_len: int,
    c: Seq<u8>,
    c_len: int,
    e: int,
) -> Seq<u8> {
    crate::q4_0::row_of(a, a_len, e) + crate::q4_0::row_of(b, b_len, e) + crate::q4_0::row_of(
        c,
        c_len,
        e,
    )
}

/// Fills the bank of a layer with its experts as they are: for each expert its part
/// of each of three tensors, one behind the other. A part may be empty.
pub fn copy_layer(
    a: &[u8],
    a_len: usize,
    b: &[u8],
    b_len: usize,
    c: &[u8],
    c_len: usize,
    n_experts: usize,
    bank: &mut [u8],
)
    requires
        n_experts * a_len <= a@.len(),
        n_experts * b_len <= b@.len(),
        n_experts * c_len <= c@.len(),
        a_len + b_len + c_len <= usize::MAX,
        old(bank)@.len() == n_experts * (a_len + b_len + c_len),
    ensures
        final(bank)@.len() == old(bank)@.len(),
        forall|e: int|
            0 <= e < n_experts ==> #[trigger] crate::q4_0::row_of(
                final(bank)@,
                a_len + b_len + c_len,
                e,
            ) == joined_expert(
                a@,
                a_len as int,
                b@,
                b_len as int,
                c@,
                c_len as int,
                e,
            ),
{
    let size: usize = a_len + b_len + c_len;
    let ghost (la, lb, lc) = (a.len(), b.len(), c.len());
    let ghost total: usize = bank.len();
    let mut e: usize = 0;
    while e < n_experts
        invariant
            e <= n_experts,
            size == a_len + b_len + c_len,
            la == a@.len() && lb == b@.len() && lc == c@.len(),
            total == bank@.len() == n_experts * size,
            n_experts * a_len <= la,
            n_experts * b_len <= lb,
            n_experts * c_len <= lc,
            forall|f: int|
                0 <= f < e ==> #[trigger] crate::q4_0::row_of(bank@, size as int, f)
                    == joined_expert(
                    a@,
                    a_len as int,
                    b@,
                    b_len as int,
                    c@,
                    c_len as int,
                    f,
                ),
        decreases n_experts - e,
    {
        proof {
            lemma_bounds(n_experts as int, size as int, e as int);
            lemma_bounds(n_experts as int, a_len as int, e as int);
            lemma_bounds(n_experts as int, b_len as int, e as int);
            lemma_bounds(n_experts as int, c_len as int, e as int);
        }
        let ghost before = bank@;
        let at: usize = e * size;
        copy_run(a, e * a_len, a_len, bank, at);
        copy_run(b, e * b_len, b_len, bank, at + a_len);
        copy_run(c, e * c_len, c_len, bank, at + a_len + b_len);
        proof {
            let whole = joined_expert(
                a@,
                a_len as int,
                b@,
                b_len as int,
                c@,
                c_len as int,
                e as int,
            );
            assert(bank@ =~= before.take(at as int) + whole + before.skip(at + size));
            assert(crate::q4_0::row_of(bank@, size as int, e as int) =~= whole);
            assert forall|f: int| 0 <= f < e implies #[trigger] crate::q4_0::row_of(
                bank@,
                size as int,
                f,
            ) == crate::q4_0::row_of(before, size as int, f) by {
                lemma_bounds(e as int, size as int, f);
                assert(crate::q4_0::row_of(bank@, size as int, f) =~= crate::q4_0::row_of(
                    before,
                    size as int,
                    f,
                ));
            }
        }
        e = e + 1;
    }
}

} // verus!
