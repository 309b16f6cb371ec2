//! Byte strings made by laying chunks end to end, and where each chunk lies.

use vstd::prelude::*;

verus! {

/// The chunks laid end to end.
pub open spec fn concat(chunks: Seq<Seq<u8>>) -> Seq<u8>
    decreases chunks.len(),
{
    if chunks.len() == 0 {
        Seq::empty()
    } else {
        concat(chunks.drop_last()) + chunks.last()
    }
}

/// Where chunk `i` begins.
pub open spec fn chunk_start(chunks: Seq<Seq<u8>>, i: int) -> int {
    concat(chunks.take(i)).len() as int
}

/// One more chunk extends the string by that chunk.
pub proof fn lemma_concat_step(chunks: Seq<Seq<u8>>, i: int)
    requires
        0 <= i < chunks.len(),
    ensures
        concat(chunks.take(i + 1)) == concat(chunks.take(i)) + chunks[i],
{
    assert(chunks.take(i + 1).drop_last() =~= chunks.take(i));
}

/// All the chunks, taken, are the chunks.
pub proof fn lemma_concat_all(chunks: Seq<Seq<u8>>)
    ensures
        concat(chunks.take(chunks.len() as int)) == concat(chunks),
{
    assert(chunks.take(chunks.len() as int) =~= chunks);
}

/// Chunks begin in order, and the last one ends where the string ends.
pub proof fn lemma_chunk_starts(chunks: Seq<Seq<u8>>, i: int, j: int)
    requires
        0 <= i <= j <= chunks.len(),
    ensures
        chunk_start(chunks, i) <= chunk_start(chunks, j),
        i < j ==> chunk_start(chunks, i) + chunks[i].len() <= chunk_start(chunks, j),
        chunk_start(chunks, chunks.len() as int) == concat(chunks).len(),
    decreases j - i,
{
    lemma_concat_all(chunks);
    if i < j {
        lemma_concat_step(chunks, j - 1);
        lemma_chunk_starts(chunks, i, j - 1);
    }
}

/// Chunk `i` is found in the string at its start.
pub proof fn lemma_chunk_found(chunks: Seq<Seq<u8>>, i: int)
    requires
        0 <= i < chunks.len(),
    ensures
        chunk_start(chunks, i) + chunks[i].len() <= concat(chunks).len(),
        concat(chunks).subrange(
            chunk_start(chunks, i),
            chunk_start(chunks, i) + chunks[i].len(),
        ) == chunks[i],
    decreases chunks.len(),
{
    let n = chunks.len() as int;
    let front = chunks.drop_last();
    if i == n - 1 {
        assert(chunks.take(i) =~= front);
        assert(concat(chunks).subrange(
            chunk_start(chunks, i),
            chunk_start(chunks, i) + chunks[i].len(),
        ) =~= chunks[i]);
    } else {
        lemma_chunk_found(front, i);
        assert(front.take(i) =~= chunks.take(i));
        assert(front[i] == chunks[i]);
        assert(concat(chunks).subrange(
            chunk_start(chunks, i),
            chunk_start(chunks, i) + chunks[i].len(),
        ) =~= concat(front).subrange(
            chunk_start(front, i),
            chunk_start(front, i) + front[i].len(),
        ));
    }
}

/// Chunks of one size begin at multiples of that size.
pub proof fn lemma_equal_chunks(chunks: Seq<Seq<u8>>, size: int, i: int)
    requires
        0 <= i <= chunks.len(),
        forall|k: int| 0 <= k < chunks.len() ==> (#[trigger] chunks[k]).len() == size,
    ensures
        chunk_start(chunks, i) == size * i,
    decreases i,
{
    if i > 0 {
        lemma_concat_step(chunks, i - 1);
        lemma_equal_chunks(chunks, size, i - 1);
        assert(chunks[i - 1].len() == size);
        assert(chunk_start(chunks, i) == chunk_start(chunks, i - 1) + size);
        assert(size * i == size * (i - 1) + size) by (nonlinear_arith);
    } else {
        assert(chunks.take(0).len() == 0);
        assert(size * 0 == 0);
    }
}

/// A stretch of the middle one of three strings is found in their
/// concatenation, after the first.
pub proof fn lemma_middle(a: Seq<u8>, b: Seq<u8>, c: Seq<u8>, from: int, to: int)
    requires
        0 <= from <= to <= b.len(),
    ensures
        (a + b + c).subrange(a.len() + from, a.len() + to) == b.subrange(from, to),
{
    assert((a + b + c).subrange(a.len() + from, a.len() + to) =~= b.subrange(from, to));
}

} // verus!
