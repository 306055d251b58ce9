use crate::candidate::{forest_depth, forest_size, tree_depth, tree_size, Candidate};
use vstd::prelude::*;

verus! {

/// A depth capped at `usize::MAX`, which is where the reported depth stops.
pub open spec fn capped(n: nat) -> nat {
    if n > usize::MAX {
        usize::MAX as nat
    } else {
        n
    }
}

/// The size of any single tree is at most its forest's size.
proof fn lemma_tree_size_le(f: Seq<Candidate>, i: int)
    requires
        0 <= i < f.len(),
    ensures
        tree_size(f[i]) <= forest_size(f),
    decreases i,
{
    if i > 0 {
        lemma_tree_size_le(f.drop_first(), i - 1);
        assert(f.drop_first()[i - 1] == f[i]);
    }
}

/// Appending a candidate caps the forest's depth at the deeper of the two.
proof fn lemma_forest_depth_push(f: Seq<Candidate>, c: Candidate)
    ensures
        forest_depth(f.push(c)) == if tree_depth(c) > forest_depth(f) {
            tree_depth(c)
        } else {
            forest_depth(f)
        },
    decreases f.len(),
{
    if f.len() == 0 {
        assert(f.push(c).drop_first() =~= Seq::<Candidate>::empty());
        assert(f.push(c)[0] == c);
        assert(forest_depth(Seq::<Candidate>::empty()) == 0);
        assert(forest_depth(f) == 0);
    } else {
        assert(f.push(c).drop_first() =~= f.drop_first().push(c));
        assert(f.push(c)[0] == f[0]);
        lemma_forest_depth_push(f.drop_first(), c);
        assert(forest_depth(f.push(c)) == if tree_depth(f[0]) >= forest_depth(
            f.drop_first().push(c),
        ) {
            tree_depth(f[0])
        } else {
            forest_depth(f.drop_first().push(c))
        });
        assert(forest_depth(f) == if tree_depth(f[0]) >= forest_depth(f.drop_first()) {
            tree_depth(f[0])
        } else {
            forest_depth(f.drop_first())
        });
    }
}

/// Maximum nesting depth of the candidate forest: 0 when no candidate has
/// children, else one more than the deepest child list — following the
/// deepest child everywhere, not the first.  A depth beyond `usize::MAX`
/// (unreachable for any tree that fits in memory) would be reported as
/// `usize::MAX`.
pub fn depth(candidates: &Vec<Candidate>) -> (d: usize)
    ensures
        d as nat == capped(forest_depth(candidates@)),
    decreases forest_size(candidates@), 1int,
{
    let mut best: usize = 0;
    let mut i: usize = 0;
    proof {
        assert(candidates@.subrange(0, 0) =~= Seq::<Candidate>::empty());
    }
    while i < candidates.len()
        invariant
            i <= candidates@.len(),
            best as nat == capped(forest_depth(candidates@.subrange(0, i as int))),
        decreases candidates@.len() - i,
    {
        proof {
            lemma_tree_size_le(candidates@, i as int);
        }
        let d = candidate_depth(&candidates[i]);
        if d > best {
            best = d;
        }
        proof {
            assert(candidates@.subrange(0, i + 1) =~= candidates@.subrange(0, i as int).push(
                candidates@[i as int],
            ));
            lemma_forest_depth_push(candidates@.subrange(0, i as int), candidates@[i as int]);
        }
        i += 1;
    }
    proof {
        assert(candidates@.subrange(0, candidates@.len() as int) =~= candidates@);
    }
    best
}

/// Depth of the tree rooted at `c`: 0 for a leaf, else one more than the
/// depth of its child list.
fn candidate_depth(c: &Candidate) -> (d: usize)
    ensures
        d as nat == capped(tree_depth(*c)),
    decreases tree_size(*c), 0int,
{
    if c.children.len() == 0 {
        0
    } else {
        let sub = depth(&c.children);
        sub.saturating_add(1)
    }
}

} // verus!
