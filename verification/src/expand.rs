use crate::candidate::{forest_size, lemma_forest_size_push, tree_size, Candidate};
use crate::errors::ShuffleError;
use crate::estimate::{
    chunk_count_spec, estimate_spec, factorial, lemma_estimate_parts, lemma_factorial_pos,
    try_estimate_count,
};
use crate::partition::{chunks_of, lemma_chunks_of_flatten, lemma_chunks_of_len, partition_into};
use crate::permute::{all_orderings, concat_chunks, lemma_flatten_multiset_permuted, orderings_of};
use vstd::multiset::Multiset;
use vstd::prelude::*;

verus! {

/// Receives one report per generated candidate; purely observational, the
/// expansion's result does not depend on it.
pub trait ProgressSink {
    /// Called once per candidate, with the number generated so far and the
    /// estimated total.
    fn report(&mut self, generated: usize, estimated_total: usize);
}

/// A sink that ignores every report.
pub struct SilentSink;

impl ProgressSink for SilentSink {
    fn report(&mut self, _generated: usize, _estimated_total: usize) {
    }
}

/// The forest is exactly one level of expansion of `lines` at `blocksize`:
/// past the terminal condition it is empty; otherwise it holds one unscored
/// candidate per ordering of the half-block chunks, in enumeration order,
/// each carrying that ordering's concatenation and, below it, the full
/// expansion of that sequence at the halved block size.
pub open spec fn is_expansion(
    f: Seq<Candidate>,
    lines: Seq<usize>,
    blocksize: nat,
    min_blocksize: nat,
) -> bool
    decreases blocksize,
{
    if blocksize <= 1 || blocksize < min_blocksize {
        f.len() == 0
    } else {
        let next = blocksize / 2;
        let ords = orderings_of(chunks_of(lines, next));
        &&& f.len() == ords.len()
        &&& forall|i: int|
            0 <= i < f.len() ==> {
                &&& (#[trigger] f[i]).lines@ == ords[i].flatten()
                &&& f[i].fitness is None
                &&& is_expansion(f[i].children@, ords[i].flatten(), next, min_blocksize)
            }
    }
}

/// Every candidate in the forest carries a permutation of the elements in
/// `m`: the same multiset, and so the same length.
pub open spec fn forest_all_permutations(f: Seq<Candidate>, m: Multiset<usize>) -> bool
    decreases f,
{
    forall|i: int| 0 <= i < f.len() ==> tree_all_permutations(#[trigger] f[i], m)
}

/// Every candidate in the tree rooted at `c` carries a permutation of `m`.
pub open spec fn tree_all_permutations(c: Candidate, m: Multiset<usize>) -> bool
    decreases c,
{
    &&& c.lines@.to_multiset() == m
    &&& forest_all_permutations(c.children@, m)
}

/// A forest of permutations of `s` holds, at every top-level candidate, a
/// sequence of `s`'s exact length: equal multisets force equal lengths.
/// The same predicate recurs below each candidate, so the lengths agree
/// anywhere in the tree.
pub proof fn lemma_permutations_keep_length(f: Seq<Candidate>, s: Seq<usize>, i: int)
    requires
        forest_all_permutations(f, s.to_multiset()),
        0 <= i < f.len(),
    ensures
        f[i].lines@.len() == s.len(),
{
    s.to_multiset_ensures();
    f[i].lines@.to_multiset_ensures();
}

proof fn lemma_forest_all_permutations_push(f: Seq<Candidate>, c: Candidate, m: Multiset<usize>)
    requires
        forest_all_permutations(f, m),
        tree_all_permutations(c, m),
    ensures
        forest_all_permutations(f.push(c), m),
{
    assert forall|i: int| 0 <= i < f.push(c).len() implies tree_all_permutations(
        #[trigger] f.push(c)[i],
        m,
    ) by {
        if i < f.len() {
            assert(f.push(c)[i] == f[i]);
        } else {
            assert(f.push(c)[i] == c);
        }
    }
}

/// One level of expansion: partitions `lines` into chunks of half the block
/// size, turns every ordering of the chunks into one candidate, and expands
/// each candidate's sequence recursively at the halved block size.  Adds one
/// to `count` per candidate and reports each to `sink`.
fn expand_rec<P: ProgressSink>(
    lines: &Vec<usize>,
    blocksize: usize,
    min_blocksize: usize,
    count: &mut usize,
    total: usize,
    sink: &mut P,
) -> (forest: Vec<Candidate>)
    requires
        min_blocksize >= 1,
        *old(count) + estimate_spec(lines@.len(), blocksize as nat, min_blocksize as nat) <= total,
    ensures
        is_expansion(forest@, lines@, blocksize as nat, min_blocksize as nat),
        forest_all_permutations(forest@, lines@.to_multiset()),
        forest_size(forest@) == estimate_spec(
            lines@.len(),
            blocksize as nat,
            min_blocksize as nat,
        ),
        *final(count) == *old(count) + estimate_spec(
            lines@.len(),
            blocksize as nat,
            min_blocksize as nat,
        ),
    decreases blocksize,
{
    let mut forest: Vec<Candidate> = Vec::new();
    if blocksize <= 1 || blocksize < min_blocksize {
        return forest;
    }
    let next = blocksize / 2;
    let chunks = partition_into(lines, next);
    let ghost chunks_dv = chunks.deep_view();
    let ghost k = chunks_dv.len();
    let ghost est = estimate_spec(lines@.len(), blocksize as nat, min_blocksize as nat);
    let ghost e_next = estimate_spec(lines@.len(), next as nat, min_blocksize as nat);
    let ghost m = lines@.to_multiset();
    proof {
        lemma_chunks_of_len(lines@, next as nat);
        lemma_chunks_of_flatten(lines@, next as nat);
        assert(k == chunk_count_spec(lines@.len(), next as nat));
        assert(est == factorial(k) * (1 + e_next));
        lemma_factorial_pos(k);
        lemma_estimate_parts(lines@.len(), blocksize as nat, min_blocksize as nat);
        assert(factorial(k) <= usize::MAX);
    }
    let orderings = all_orderings(chunks);
    let ghost ords = orderings.deep_view();
    let mut i: usize = 0;
    while i < orderings.len()
        invariant
            min_blocksize >= 1,
            2 <= blocksize,
            min_blocksize <= blocksize,
            next == blocksize / 2,
            next >= 1,
            i <= orderings.len(),
            ords == orderings.deep_view(),
            ords == orderings_of(chunks_dv),
            orderings@.len() == ords.len(),
            chunks_dv == chunks_of(lines@, next as nat),
            chunks_dv.flatten() == lines@,
            k == chunks_dv.len(),
            k == chunk_count_spec(lines@.len(), next as nat),
            ords.len() == factorial(k),
            forall|j: int|
                0 <= j < ords.len() ==> (#[trigger] ords[j]).to_multiset()
                    == chunks_dv.to_multiset(),
            m == lines@.to_multiset(),
            est == estimate_spec(lines@.len(), blocksize as nat, min_blocksize as nat),
            e_next == estimate_spec(lines@.len(), next as nat, min_blocksize as nat),
            est == factorial(k) * (1 + e_next),
            *old(count) + est <= total,
            *count == *old(count) + i * (1 + e_next),
            forest@.len() == i,
            forest_size(forest@) == i * (1 + e_next),
            forest_all_permutations(forest@, m),
            forall|j: int|
                0 <= j < i ==> {
                    &&& (#[trigger] forest@[j]).lines@ == ords[j].flatten()
                    &&& forest@[j].fitness is None
                    &&& is_expansion(
                        forest@[j].children@,
                        ords[j].flatten(),
                        next as nat,
                        min_blocksize as nat,
                    )
                },
        decreases orderings.len() - i,
    {
        proof {
            assert((i + 1) * (1 + e_next) == i * (1 + e_next) + 1 + e_next) by (nonlinear_arith);
            assert((i + 1) * (1 + e_next) <= factorial(k) * (1 + e_next)) by (nonlinear_arith)
                requires
                    i + 1 <= factorial(k),
                    e_next >= 0,
            ;
        }
        let new_lines = concat_chunks(&orderings[i]);
        proof {
            assert(ords[i as int] == orderings@[i as int].deep_view());
            assert(new_lines@ == ords[i as int].flatten());
            lemma_flatten_multiset_permuted(ords[i as int], chunks_dv);
            assert(new_lines@.to_multiset() == m);
            new_lines@.to_multiset_ensures();
            lines@.to_multiset_ensures();
            assert(new_lines@.len() == lines@.len());
        }
        *count += 1;
        sink.report(*count, total);
        let children = expand_rec(&new_lines, next, min_blocksize, count, total, sink);
        let ghost children_v = children@;
        let cand = Candidate { lines: new_lines, fitness: None, children };
        let ghost prev = forest@;
        proof {
            lemma_forest_size_push(prev, cand);
            lemma_forest_all_permutations_push(prev, cand, m);
        }
        forest.push(cand);
        proof {
            assert(forest@ =~= prev.push(cand));
            assert(forall|j: int| 0 <= j < i ==> forest@[j] == prev[j]);
            assert(forest@[i as int] == cand);
            assert(tree_size(cand) == 1 + forest_size(children_v));
        }
        i += 1;
    }
    proof {
        assert(forest@.len() == ords.len());
        assert(forest_size(forest@) == factorial(k) * (1 + e_next));
        assert(is_expansion(forest@, lines@, blocksize as nat, min_blocksize as nat));
    }
    forest
}

/// A block size, a minimum block size and an input length the expander
/// accepts: nothing is zero and the minimum does not exceed the length.
pub open spec fn valid_config(length: nat, blocksize: nat, min_blocksize: nat) -> bool {
    &&& length >= 1
    &&& blocksize >= 1
    &&& min_blocksize >= 1
    &&& min_blocksize <= length
}

/// Generates the full candidate forest for `lines`: at each level the block
/// size halves (integer floor), the sequence splits into chunks of that
/// size, and every ordering of the chunks becomes one candidate, expanded
/// recursively until the block size reaches 1 or falls below the minimum.
/// Rejects a zero block size, a zero or oversized minimum, and an empty
/// input as `InvalidConfig`, and refuses to expand at all — rather than run
/// toward memory exhaustion — when the predicted candidate count exceeds
/// `max_candidates`, as `ResourceExceeded`.  Reports each generated
/// candidate to `sink` together with the predicted total.
pub fn expand<P: ProgressSink>(
    lines: Vec<usize>,
    blocksize: usize,
    min_blocksize: usize,
    max_candidates: usize,
    sink: &mut P,
) -> (r: Result<Vec<Candidate>, ShuffleError>)
    ensures
        !valid_config(lines@.len(), blocksize as nat, min_blocksize as nat) ==> r
            == Result::<Vec<Candidate>, ShuffleError>::Err(ShuffleError::InvalidConfig),
        valid_config(lines@.len(), blocksize as nat, min_blocksize as nat) && estimate_spec(
            lines@.len(),
            blocksize as nat,
            min_blocksize as nat,
        ) > max_candidates ==> r == Result::<Vec<Candidate>, ShuffleError>::Err(
            ShuffleError::ResourceExceeded,
        ),
        valid_config(lines@.len(), blocksize as nat, min_blocksize as nat) && estimate_spec(
            lines@.len(),
            blocksize as nat,
            min_blocksize as nat,
        ) <= max_candidates ==> (r matches Ok(forest) && {
            &&& is_expansion(forest@, lines@, blocksize as nat, min_blocksize as nat)
            &&& forest_all_permutations(forest@, lines@.to_multiset())
            &&& forest_size(forest@) == estimate_spec(
                lines@.len(),
                blocksize as nat,
                min_blocksize as nat,
            )
        }),
{
    if lines.len() == 0 || blocksize == 0 || min_blocksize == 0 || min_blocksize > lines.len() {
        return Err(ShuffleError::InvalidConfig);
    }
    let est = match try_estimate_count(lines.len(), blocksize, min_blocksize) {
        Some(e) => e,
        None => {
            return Err(ShuffleError::ResourceExceeded);
        },
    };
    if est > max_candidates {
        return Err(ShuffleError::ResourceExceeded);
    }
    let mut count: usize = 0;
    let forest = expand_rec(&lines, blocksize, min_blocksize, &mut count, est, sink);
    Ok(forest)
}

} // verus!
