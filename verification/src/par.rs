//! Work handed out to threads chunk by chunk.

use rayon::iter::{IndexedParallelIterator, ParallelIterator};
use rayon::slice::ParallelSliceMut;
use vstd::prelude::*;

verus! {

/// A job that fills the chunks of a buffer, each from its number alone.
pub trait ChunkFill<T>: Sync {
    /// What chunk `i` holds once it is filled.
    spec fn chunk(&self, i: int) -> Seq<T>;

    /// The job can fill chunk `i` in place of `before`, which it holds.
    spec fn ready(&self, i: int, before: Seq<T>) -> bool;

    /// Fills chunk `i`.
    fn fill(&self, i: usize, dst: &mut [T])
        requires
            self.ready(i as int, old(dst)@),
        ensures
            final(dst)@ == self.chunk(i as int),
    ;
}

/// The chunk of number `i` out of a buffer that is cut into chunks of `len`.
pub open spec fn nth_chunk<T>(buf: Seq<T>, len: nat, i: int) -> Seq<T> {
    buf.subrange(i * len, i * len + len)
}

/// `rayon`'s `par_chunks_exact_mut`, with `enumerate` and `for_each`, cuts a
/// buffer into chunks of one length, hands each chunk with its number to the
/// job once, and leaves alone what is too short for a chunk at the end.
#[verifier::external_body]
pub(crate) fn fill_chunks<T: Send, J: ChunkFill<T>>(out: &mut [T], len: usize, job: &J)
    requires
        len > 0,
        forall|i: int|
            0 <= i < old(out)@.len() as int / len as int ==> job.ready(
                i,
                #[trigger] nth_chunk(old(out)@, len as nat, i),
            ),
    ensures
        final(out)@.len() == old(out)@.len(),
        forall|i: int|
            0 <= i < old(out)@.len() as int / len as int ==> #[trigger] nth_chunk(
                final(out)@,
                len as nat,
                i,
            ) == job.chunk(i),
        forall|j: int|
            old(out)@.len() as int / len as int * len <= j < old(out)@.len() ==> final(out)@[j]
                == old(out)@[j],
{
    out.par_chunks_exact_mut(len).enumerate().for_each(|(i, dst)| job.fill(i, dst));
}

} // verus!
