use crate::estimate::factorial;
use itertools::Itertools;
use vstd::prelude::*;
use vstd::seq_lib::lemma_multiset_commutative;

verus! {

/// The sequence of all `k!` orderings of `chunks`, where `k` is the number
/// of chunks, exactly as `itertools`' `permutations` enumerates them.
pub uninterp spec fn orderings_of(chunks: Seq<Seq<usize>>) -> Seq<Seq<Seq<usize>>>;

/// Relies on itertools' `Itertools::permutations`: asked for permutations of
/// the input's own length `k`, it yields all `k!` of them, each drawing
/// every input position exactly once, and the enumeration depends on the
/// input alone.  `k!` must fit a `usize`, or no vector could hold the
/// orderings in the first place.
#[verifier::external_body]
pub(crate) fn all_orderings(chunks: Vec<Vec<usize>>) -> (r: Vec<Vec<Vec<usize>>>)
    requires
        factorial(chunks.deep_view().len()) <= usize::MAX,
    ensures
        r.deep_view() == orderings_of(chunks.deep_view()),
        r.deep_view().len() == factorial(chunks.deep_view().len()),
        forall|i: int|
            0 <= i < r.deep_view().len() ==> (#[trigger] r.deep_view()[i]).to_multiset()
                == chunks.deep_view().to_multiset(),
{
    let k = chunks.len();
    chunks.into_iter().permutations(k).collect()
}

/// Concatenates the chunks of one ordering back into a single sequence.
pub(crate) fn concat_chunks(chunks: &Vec<Vec<usize>>) -> (r: Vec<usize>)
    ensures
        r@ == chunks.deep_view().flatten(),
{
    let ghost dv = chunks.deep_view();
    let mut r: Vec<usize> = Vec::new();
    let mut i: usize = 0;
    proof {
        assert(r@ =~= dv.subrange(0, 0).flatten());
    }
    while i < chunks.len()
        invariant
            i <= chunks.len(),
            dv == chunks.deep_view(),
            dv.len() == chunks@.len(),
            r@ == dv.subrange(0, i as int).flatten(),
        decreases chunks.len() - i,
    {
        let chunk = &chunks[i];
        let ghost base = r@;
        let mut j: usize = 0;
        while j < chunk.len()
            invariant
                j <= chunk.len(),
                r@ == base + chunk@.subrange(0, j as int),
            decreases chunk.len() - j,
        {
            let ghost before = r@;
            r.push(chunk[j]);
            proof {
                assert(before.push(chunk@[j as int]) =~= base + chunk@.subrange(0, j + 1));
            }
            j += 1;
        }
        proof {
            assert(chunk@.subrange(0, chunk@.len() as int) =~= chunk@);
            assert(dv.subrange(0, i + 1) =~= dv.subrange(0, i as int).push(dv[i as int]));
            dv.subrange(0, i as int).lemma_flatten_push(dv[i as int]);
            assert(dv[i as int] =~= chunk@);
            assert(r@ =~= dv.subrange(0, i + 1).flatten());
        }
        i += 1;
    }
    proof {
        assert(dv.subrange(0, dv.len() as int) =~= dv);
    }
    r
}

/// Removing one chunk removes exactly its elements from the concatenation.
pub proof fn lemma_flatten_multiset_remove(s: Seq<Seq<usize>>, i: int)
    requires
        0 <= i < s.len(),
    ensures
        s.flatten().to_multiset() == s.remove(i).flatten().to_multiset().add(s[i].to_multiset()),
    decreases i,
{
    if i == 0 {
        assert(s.remove(0) =~= s.drop_first());
        assert(s.flatten() == s[0] + s.drop_first().flatten());
        lemma_multiset_commutative(s[0], s.drop_first().flatten());
        assert(s.drop_first().flatten().to_multiset().add(s[0].to_multiset())
            =~= s[0].to_multiset().add(s.drop_first().flatten().to_multiset()));
    } else {
        let t = s.drop_first();
        lemma_flatten_multiset_remove(t, i - 1);
        assert(s.remove(i).drop_first() =~= t.remove(i - 1));
        assert(s.remove(i)[0] == s[0]);
        assert(s.flatten() == s[0] + t.flatten());
        assert(s.remove(i).flatten() == s[0] + t.remove(i - 1).flatten());
        lemma_multiset_commutative(s[0], t.flatten());
        lemma_multiset_commutative(s[0], t.remove(i - 1).flatten());
        assert(t[i - 1] == s[i]);
        assert(s[0].to_multiset().add(
            t.remove(i - 1).flatten().to_multiset().add(s[i].to_multiset()),
        ) =~= s[0].to_multiset().add(t.remove(i - 1).flatten().to_multiset()).add(
            s[i].to_multiset(),
        ));
    }
}

/// Two chunk lists holding the same chunks, in any order, concatenate to
/// sequences with the same element multiset.
pub proof fn lemma_flatten_multiset_permuted(a: Seq<Seq<usize>>, b: Seq<Seq<usize>>)
    requires
        a.to_multiset() == b.to_multiset(),
    ensures
        a.flatten().to_multiset() == b.flatten().to_multiset(),
    decreases a.len(),
{
    a.to_multiset_ensures();
    b.to_multiset_ensures();
    if a.len() == 0 {
        assert(b.len() == 0);
    } else {
        let x = a[0];
        assert(a.contains(x));
        assert(b.to_multiset().count(x) > 0);
        assert(b.contains(x));
        let j = choose|j: int| 0 <= j < b.len() && b[j] == x;
        assert(a.remove(0).to_multiset() =~= a.to_multiset().remove(x));
        assert(b.remove(j).to_multiset() =~= b.to_multiset().remove(x));
        lemma_flatten_multiset_permuted(a.remove(0), b.remove(j));
        lemma_flatten_multiset_remove(a, 0);
        lemma_flatten_multiset_remove(b, j);
    }
}

} // verus!
