use crate::errors::ShuffleError;
use vstd::arithmetic::div_mod::lemma_div_plus_one;
use vstd::prelude::*;

verus! {

/// Contiguous, order-preserving chunks of `size` elements each, in original
/// order; the last chunk may be shorter.  A zero size or an empty sequence
/// gives no chunks.
pub open spec fn chunks_of(lines: Seq<usize>, size: nat) -> Seq<Seq<usize>>
    decreases lines.len(),
{
    if size == 0 || lines.len() == 0 {
        Seq::empty()
    } else if lines.len() <= size {
        seq![lines]
    } else {
        seq![lines.subrange(0, size as int)] + chunks_of(
            lines.subrange(size as int, lines.len() as int),
            size,
        )
    }
}

/// There are exactly `ceil(len / size)` chunks.
pub proof fn lemma_chunks_of_len(lines: Seq<usize>, size: nat)
    requires
        size >= 1,
    ensures
        chunks_of(lines, size).len() == (lines.len() + size - 1) / (size as int),
    decreases lines.len(),
{
    if lines.len() == 0 {
        assert((lines.len() + size - 1) / (size as int) == 0) by {
            vstd::arithmetic::div_mod::lemma_basic_div(size - 1, size as int);
        }
    } else if lines.len() <= size {
        assert((lines.len() + size - 1) / (size as int) == 1) by {
            vstd::arithmetic::div_mod::lemma_basic_div(lines.len() - 1, size as int);
            lemma_div_plus_one(lines.len() - 1, size as int);
        }
    } else {
        let rest = lines.subrange(size as int, lines.len() as int);
        lemma_chunks_of_len(rest, size);
        assert((rest.len() + size - 1) / (size as int) + 1 == (lines.len() + size - 1) / (
        size as int)) by {
            lemma_div_plus_one(rest.len() + size - 1, size as int);
        }
    }
}

/// Concatenating the chunks in order gives the sequence back.
pub proof fn lemma_chunks_of_flatten(lines: Seq<usize>, size: nat)
    requires
        size >= 1,
    ensures
        chunks_of(lines, size).flatten() == lines,
    decreases lines.len(),
{
    if lines.len() == 0 {
        assert(chunks_of(lines, size).flatten() =~= lines);
    } else if lines.len() <= size {
        assert(seq![lines].len() == 1);
        seq![lines].lemma_flatten_singleton();
    } else {
        let head = lines.subrange(0, size as int);
        let rest = lines.subrange(size as int, lines.len() as int);
        lemma_chunks_of_flatten(rest, size);
        assert(chunks_of(lines, size).drop_first() =~= chunks_of(rest, size));
        assert(chunks_of(lines, size).flatten() == head + chunks_of(rest, size).flatten());
        assert(head + rest =~= lines);
    }
}

/// Splits `lines` into `ceil(len / size)` contiguous chunks of `size`
/// elements, in original order; the last chunk may be shorter.  The size must
/// be at least 1.
pub(crate) fn partition_into(lines: &Vec<usize>, size: usize) -> (chunks: Vec<Vec<usize>>)
    requires
        size >= 1,
    ensures
        chunks.deep_view() == chunks_of(lines@, size as nat),
{
    let mut chunks: Vec<Vec<usize>> = Vec::new();
    let mut pos: usize = 0;
    proof {
        assert(lines@.subrange(0, lines@.len() as int) =~= lines@);
        assert(chunks.deep_view() =~= Seq::<Seq<usize>>::empty());
        assert(Seq::<Seq<usize>>::empty() + chunks_of(lines@, size as nat) =~= chunks_of(
            lines@,
            size as nat,
        ));
    }
    while pos < lines.len()
        invariant
            size >= 1,
            pos <= lines.len(),
            chunks.deep_view() + chunks_of(
                lines@.subrange(pos as int, lines@.len() as int),
                size as nat,
            ) == chunks_of(lines@, size as nat),
        decreases lines.len() - pos,
    {
        let end = if lines.len() - pos > size {
            pos + size
        } else {
            lines.len()
        };
        let ghost prev = chunks.deep_view();
        let ghost rest = lines@.subrange(pos as int, lines@.len() as int);
        let mut chunk: Vec<usize> = Vec::new();
        let mut i = pos;
        while i < end
            invariant
                pos <= i <= end <= lines.len(),
                chunk@ == lines@.subrange(pos as int, i as int),
            decreases end - i,
        {
            let ghost before = chunk@;
            chunk.push(lines[i]);
            proof {
                assert(before.push(lines@[i as int]) =~= lines@.subrange(pos as int, i + 1));
            }
            i += 1;
        }
        proof {
            if rest.len() <= size {
                assert(chunk@ =~= rest);
                assert(chunks_of(rest, size as nat) == seq![rest]);
                assert(lines@.subrange(end as int, lines@.len() as int).len() == 0);
                assert(chunks_of(
                    lines@.subrange(end as int, lines@.len() as int),
                    size as nat,
                ) =~= Seq::<Seq<usize>>::empty());
            } else {
                assert(chunk@ =~= rest.subrange(0, size as int));
                assert(rest.subrange(size as int, rest.len() as int) =~= lines@.subrange(
                    end as int,
                    lines@.len() as int,
                ));
                assert(chunks_of(rest, size as nat) == seq![rest.subrange(0, size as int)]
                    + chunks_of(lines@.subrange(end as int, lines@.len() as int), size as nat));
            }
        }
        let ghost chunkv = chunk@;
        proof {
            assert(chunk.deep_view() =~= chunkv);
        }
        chunks.push(chunk);
        proof {
            assert(chunks.deep_view() =~= prev.push(chunkv));
            assert(prev.push(chunkv) + chunks_of(
                lines@.subrange(end as int, lines@.len() as int),
                size as nat,
            ) =~= prev + chunks_of(rest, size as nat));
        }
        pos = end;
    }
    proof {
        assert(lines@.subrange(pos as int, lines@.len() as int).len() == 0);
        assert(chunks_of(
            lines@.subrange(pos as int, lines@.len() as int),
            size as nat,
        ) =~= Seq::<Seq<usize>>::empty());
        assert(chunks.deep_view() + Seq::<Seq<usize>>::empty() =~= chunks.deep_view());
    }
    chunks
}

/// Splits a sequence into contiguous, order-preserving chunks of `chunk_size`
/// elements; the final chunk may be shorter.  A zero chunk size is rejected.
pub fn partition(lines: &Vec<usize>, chunk_size: usize) -> (r: Result<Vec<Vec<usize>>, ShuffleError>)
    ensures
        chunk_size == 0 ==> r == Result::<Vec<Vec<usize>>, ShuffleError>::Err(
            ShuffleError::InvalidConfig,
        ),
        chunk_size >= 1 ==> (r matches Ok(chunks) && chunks.deep_view() == chunks_of(
            lines@,
            chunk_size as nat,
        ) && chunks.deep_view().flatten() == lines@ && chunks@.len() == (lines@.len() + chunk_size
            - 1) / (chunk_size as int)),
{
    if chunk_size == 0 {
        return Err(ShuffleError::InvalidConfig);
    }
    let chunks = partition_into(lines, chunk_size);
    proof {
        lemma_chunks_of_flatten(lines@, chunk_size as nat);
        lemma_chunks_of_len(lines@, chunk_size as nat);
        assert(chunks@.len() == chunks.deep_view().len());
    }
    Ok(chunks)
}

} // verus!
