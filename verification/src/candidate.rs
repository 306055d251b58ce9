use vstd::multiset::Multiset;
use vstd::prelude::*;

verus! {

broadcast use vstd::multiset::group_multiset_axioms;

/// One node of the candidate tree: a full-length reordering of the original
/// input sequence, the score an external evaluator assigned to it (`None`
/// until scored), and the candidates derived from it.
#[derive(Debug, PartialEq, Eq)]
pub struct Candidate {
    /// The reordered sequence, each element the original position it came from.
    pub lines: Vec<usize>,
    /// Raw evaluator score; `None` is the "unscored" sentinel.
    pub fitness: Option<u32>,
    /// Candidates refined from this one, plus any siblings the optimizer
    /// re-parented under it.
    pub children: Vec<Candidate>,
}

/// What a candidate carries besides its place in the tree; the optimizer
/// moves nodes around but never alters this.
pub open spec fn payload(c: Candidate) -> (Seq<usize>, Option<u32>) {
    (c.lines@, c.fitness)
}

/// Number of candidates in the whole forest.
pub open spec fn forest_size(f: Seq<Candidate>) -> nat
    decreases f,
{
    if f.len() == 0 {
        0
    } else {
        tree_size(f[0]) + forest_size(f.drop_first())
    }
}

/// Number of candidates in the tree rooted at `c`, the root included.
pub open spec fn tree_size(c: Candidate) -> nat
    decreases c,
{
    1 + forest_size(c.children@)
}

/// The payloads of every candidate in the forest, as a multiset: two forests
/// with equal payload multisets hold exactly the same candidates, wherever
/// they sit in the trees.
pub open spec fn forest_payloads(f: Seq<Candidate>) -> Multiset<(Seq<usize>, Option<u32>)>
    decreases f,
{
    if f.len() == 0 {
        Multiset::empty()
    } else {
        tree_payloads(f[0]).add(forest_payloads(f.drop_first()))
    }
}

/// The payloads of every candidate in the tree rooted at `c`.
pub open spec fn tree_payloads(c: Candidate) -> Multiset<(Seq<usize>, Option<u32>)>
    decreases c,
{
    Multiset::empty().insert(payload(c)).add(forest_payloads(c.children@))
}

/// Every sibling list in the forest, the top-level one included, has at most
/// `k` entries.
pub open spec fn forest_bounded(f: Seq<Candidate>, k: int) -> bool
    decreases f,
{
    &&& f.len() <= k
    &&& forall|i: int| 0 <= i < f.len() ==> tree_bounded(#[trigger] f[i], k)
}

/// Every sibling list under `c` has at most `k` entries.
pub open spec fn tree_bounded(c: Candidate, k: int) -> bool
    decreases c,
{
    forest_bounded(c.children@, k)
}

/// Appending a candidate adds its subtree's size to the forest's.
pub proof fn lemma_forest_size_push(f: Seq<Candidate>, c: Candidate)
    ensures
        forest_size(f.push(c)) == forest_size(f) + tree_size(c),
    decreases f.len(),
{
    if f.len() == 0 {
        assert(f.push(c).drop_first() =~= Seq::<Candidate>::empty());
        assert(f.push(c)[0] == c);
        assert(forest_size(f.push(c)) == tree_size(c) + forest_size(f.push(c).drop_first()));
        assert(forest_size(f.push(c).drop_first()) == 0);
    } else {
        assert(f.push(c).drop_first() =~= f.drop_first().push(c));
        assert(f.push(c)[0] == f[0]);
        lemma_forest_size_push(f.drop_first(), c);
        assert(forest_size(f.push(c)) == tree_size(f[0]) + forest_size(f.drop_first().push(c)));
        assert(forest_size(f) == tree_size(f[0]) + forest_size(f.drop_first()));
    }
}

/// Appending a candidate adds its subtree's payloads to the forest's.
pub proof fn lemma_forest_payloads_push(f: Seq<Candidate>, c: Candidate)
    ensures
        forest_payloads(f.push(c)) == forest_payloads(f).add(tree_payloads(c)),
    decreases f.len(),
{
    if f.len() == 0 {
        assert(f.push(c).drop_first() =~= Seq::<Candidate>::empty());
        assert(f.push(c)[0] == c);
        assert(forest_payloads(f.push(c)) == tree_payloads(c).add(
            forest_payloads(f.push(c).drop_first()),
        ));
        assert(forest_payloads(f.push(c).drop_first()) == Multiset::<(
            Seq<usize>,
            Option<u32>,
        )>::empty());
        assert(tree_payloads(c).add(Multiset::empty()) =~= Multiset::empty().add(
            tree_payloads(c),
        ));
    } else {
        assert(f.push(c).drop_first() =~= f.drop_first().push(c));
        assert(f.push(c)[0] == f[0]);
        lemma_forest_payloads_push(f.drop_first(), c);
        assert(forest_payloads(f.push(c)) == tree_payloads(f[0]).add(
            forest_payloads(f.drop_first().push(c)),
        ));
        assert(forest_payloads(f) == tree_payloads(f[0]).add(forest_payloads(f.drop_first())));
        assert(tree_payloads(f[0]).add(forest_payloads(f.drop_first()).add(tree_payloads(c)))
            =~= tree_payloads(f[0]).add(forest_payloads(f.drop_first())).add(tree_payloads(c)));
    }
}

/// The two forests are the same tree of candidates: same shape, and the
/// same sequence and score at every node.
pub open spec fn same_forest(a: Seq<Candidate>, b: Seq<Candidate>) -> bool
    decreases a,
{
    &&& a.len() == b.len()
    &&& forall|i: int| 0 <= i < a.len() ==> same_tree(#[trigger] a[i], b[i])
}

/// The two candidates root the same tree: same sequence, same score, same
/// children, recursively.
pub open spec fn same_tree(a: Candidate, b: Candidate) -> bool
    decreases a,
{
    &&& a.lines@ == b.lines@
    &&& a.fitness == b.fitness
    &&& same_forest(a.children@, b.children@)
}

pub proof fn lemma_same_forest_refl(f: Seq<Candidate>)
    ensures
        same_forest(f, f),
    decreases f,
{
    assert forall|i: int| 0 <= i < f.len() implies same_tree(#[trigger] f[i], f[i]) by {
        lemma_same_tree_refl(f[i]);
    }
}

pub proof fn lemma_same_tree_refl(c: Candidate)
    ensures
        same_tree(c, c),
    decreases c,
{
    lemma_same_forest_refl(c.children@);
}

/// Maximum nesting depth of the forest: a childless forest has depth 0.
pub open spec fn forest_depth(f: Seq<Candidate>) -> nat
    decreases f,
{
    if f.len() == 0 {
        0
    } else if tree_depth(f[0]) >= forest_depth(f.drop_first()) {
        tree_depth(f[0])
    } else {
        forest_depth(f.drop_first())
    }
}

/// Depth of the tree rooted at `c`: 0 for a leaf, else one more than the
/// deepest child.
pub open spec fn tree_depth(c: Candidate) -> nat
    decreases c,
{
    if c.children@.len() == 0 {
        0
    } else {
        1 + forest_depth(c.children@)
    }
}

} // verus!
