use crate::candidate::{
    forest_bounded, forest_payloads, forest_size, lemma_forest_payloads_push,
    lemma_forest_size_push, lemma_same_forest_refl, payload, same_forest, same_tree,
    tree_bounded, tree_payloads, tree_size, Candidate,
};
use crate::errors::ShuffleError;
use vstd::multiset::Multiset;
use vstd::prelude::*;

verus! {

broadcast use vstd::multiset::group_multiset_axioms;

/// Addition that stops at `usize::MAX`, as the diagnostics counter does.
pub open spec fn sat_add(a: nat, b: nat) -> nat {
    if a + b > usize::MAX {
        usize::MAX as nat
    } else {
        a + b
    }
}

/// One grouping pass: consecutive groups of `k` siblings collapse into
/// their first member, which adopts the rest as children after any children
/// it already had.  Keeps every candidate and shortens the list.
fn regroup(forest: Vec<Candidate>, k: usize) -> (r: Vec<Candidate>)
    requires
        k >= 2,
        forest@.len() > k,
    ensures
        forest_payloads(r@) == forest_payloads(forest@),
        forest_size(r@) == forest_size(forest@),
        r@.len() < forest@.len(),
        1 <= r@.len(),
        payload(r@[0]) == payload(forest@[0]),
{
    let ghost orig_len = forest@.len();
    let ghost total_size = forest_size(forest@);
    let ghost total_pl = forest_payloads(forest@);
    let mut rest = forest;
    let mut out: Vec<Candidate> = Vec::new();
    proof {
        assert(forest_size(out@) == 0);
        assert(forest_payloads(out@) == Multiset::<(Seq<usize>, Option<u32>)>::empty());
        assert(Multiset::<(Seq<usize>, Option<u32>)>::empty().add(total_pl) =~= total_pl);
    }
    while rest.len() > 0
        invariant
            k >= 2,
            orig_len > k,
            forest_size(out@) + forest_size(rest@) == total_size,
            forest_payloads(out@).add(forest_payloads(rest@)) == total_pl,
            rest@.len() > 0 ==> k * out@.len() <= orig_len - rest@.len(),
            k * out@.len() <= orig_len - rest@.len() + (k - 1),
            out@.len() == 0 ==> rest@ == forest@,
            out@.len() >= 1 ==> payload(out@[0]) == payload(forest@[0]),
        decreases rest@.len(),
    {
        let ghost rest0 = rest@;
        let ghost out0 = out@;
        let mut rep = rest.remove(0);
        proof {
            assert(rest0.remove(0) =~= rest0.drop_first());
            assert(forest_size(rest0) == tree_size(rest0[0]) + forest_size(rest@));
            assert(forest_payloads(rest0) == tree_payloads(rest0[0]).add(forest_payloads(rest@)));
        }
        let ghost consumed0 = orig_len - rest@.len();
        let ghost rep_pl = payload(rep);
        proof {
            assert(tree_payloads(rep).add(forest_payloads(rest@)).add(forest_payloads(out0))
                =~= forest_payloads(out0).add(tree_payloads(rep).add(forest_payloads(rest@))));
        }
        let mut j: usize = 1;
        while j < k && rest.len() > 0
            invariant
                1 <= j <= k,
                orig_len - rest@.len() == consumed0 + j - 1,
                payload(rep) == rep_pl,
                tree_size(rep) + forest_size(rest@) + forest_size(out0) == total_size,
                tree_payloads(rep).add(forest_payloads(rest@)).add(forest_payloads(out0))
                    == total_pl,
            decreases k - j,
        {
            let ghost restj = rest@;
            let ghost repj = rep;
            let child = rest.remove(0);
            proof {
                assert(restj.remove(0) =~= restj.drop_first());
                assert(forest_size(restj) == tree_size(restj[0]) + forest_size(rest@));
                assert(forest_payloads(restj) == tree_payloads(restj[0]).add(
                    forest_payloads(rest@),
                ));
            }
            let ghost kids = rep.children@;
            rep.children.push(child);
            proof {
                lemma_forest_size_push(kids, child);
                lemma_forest_payloads_push(kids, child);
                assert(tree_size(rep) == 1 + forest_size(kids.push(child)));
                assert(tree_payloads(rep) == Multiset::empty().insert(
                    payload(rep),
                ).add(forest_payloads(kids.push(child))));
                assert(payload(rep) == payload(repj));
                assert(tree_payloads(repj).add(tree_payloads(child)) =~= Multiset::empty().insert(
                    payload(repj),
                ).add(forest_payloads(kids)).add(tree_payloads(child)));
                assert(Multiset::empty().insert(payload(repj)).add(
                    forest_payloads(kids).add(tree_payloads(child)),
                ) =~= Multiset::empty().insert(payload(repj)).add(
                    forest_payloads(kids),
                ).add(tree_payloads(child)));
                assert(tree_payloads(rep) == tree_payloads(repj).add(tree_payloads(child)));
                assert(tree_payloads(repj).add(tree_payloads(child)).add(
                    forest_payloads(rest@),
                ).add(forest_payloads(out0)) =~= tree_payloads(repj).add(
                    tree_payloads(child).add(forest_payloads(rest@)),
                ).add(forest_payloads(out0)));
            }
            j += 1;
        }
        let ghost outp = out@;
        proof {
            lemma_forest_size_push(outp, rep);
            lemma_forest_payloads_push(outp, rep);
        }
        out.push(rep);
        proof {
            assert(out@[0] == if outp.len() == 0 { rep } else { outp[0] });
            assert(forest_payloads(out@) == forest_payloads(outp).add(tree_payloads(rep)));
            assert(forest_payloads(outp).add(tree_payloads(rep)).add(forest_payloads(rest@))
                =~= forest_payloads(outp).add(
                tree_payloads(rep).add(forest_payloads(rest@)),
            ));
            assert(forest_payloads(outp).add(
                tree_payloads(rep).add(forest_payloads(rest@)),
            ) == total_pl) by {
                assert(tree_payloads(rep).add(forest_payloads(rest@)).add(forest_payloads(outp))
                    =~= forest_payloads(outp).add(tree_payloads(rep).add(forest_payloads(rest@))));
            }
        }
        proof {
            assert(k * out@.len() == k * out0.len() + k) by (nonlinear_arith)
                requires
                    out@.len() == out0.len() + 1,
            ;
        }
    }
    proof {
        assert(out@.len() >= 1);
        assert(out@.len() < orig_len) by (nonlinear_arith)
            requires
                k * out@.len() <= orig_len + k - 1,
                k >= 2,
                orig_len > k,
                out@.len() >= 1,
        ;
        assert(forest_payloads(rest@) == Multiset::<(Seq<usize>, Option<u32>)>::empty());
        assert(forest_payloads(out@).add(Multiset::empty()) =~= forest_payloads(out@));
    }
    out
}

/// Bounds every sibling list reachable from `forest` by `k`: grouping
/// passes shrink each list until it fits, then the same happens below every
/// surviving candidate.  No candidate is created or dropped, only
/// re-parented; a tree that already satisfies the bound comes back
/// identical.  Adds one to `steps` per sibling list processed, stopping at
/// `usize::MAX`.
fn optimize_forest(forest: Vec<Candidate>, k: usize, steps: &mut usize) -> (r: Vec<Candidate>)
    requires
        k >= 2,
    ensures
        forest_payloads(r@) == forest_payloads(forest@),
        forest_size(r@) == forest_size(forest@),
        forest_bounded(r@, k as int),
        forest_bounded(forest@, k as int) ==> same_forest(r@, forest@),
        forest@.len() >= 1 ==> r@.len() >= 1 && payload(r@[0]) == payload(forest@[0]),
        forest@.len() == 0 ==> r@.len() == 0,
        *final(steps) as nat == sat_add(*old(steps) as nat, 1 + forest_size(forest@)),
    decreases forest_size(forest@),
{
    let ghost orig = forest@;
    let ghost total_size = forest_size(forest@);
    let ghost total_pl = forest_payloads(forest@);
    *steps = steps.saturating_add(1);
    let ghost base = *steps as nat;
    let mut cur = forest;
    while cur.len() > k
        invariant
            k >= 2,
            total_size == forest_size(forest@),
            forest_size(cur@) == total_size,
            forest_payloads(cur@) == total_pl,
            forest_bounded(orig, k as int) ==> cur@ == orig,
            orig.len() >= 1 ==> cur@.len() >= 1 && payload(cur@[0]) == payload(orig[0]),
            orig.len() == 0 ==> cur@.len() == 0,
        decreases cur@.len(),
    {
        proof {
            if forest_bounded(orig, k as int) {
                assert(orig.len() <= k);
                assert(false);
            }
        }
        cur = regroup(cur, k);
    }
    let ghost n_top = cur@.len();
    let mut out: Vec<Candidate> = Vec::new();
    proof {
        assert(forest_payloads(out@) == Multiset::<(Seq<usize>, Option<u32>)>::empty());
        assert(Multiset::<(Seq<usize>, Option<u32>)>::empty().add(forest_payloads(cur@))
            =~= forest_payloads(cur@));
    }
    while cur.len() > 0
        invariant
            k >= 2,
            total_size == forest_size(forest@),
            n_top <= k,
            out@.len() + cur@.len() == n_top,
            forest_size(out@) + forest_size(cur@) == total_size,
            forest_payloads(out@).add(forest_payloads(cur@)) == total_pl,
            forall|i: int| 0 <= i < out@.len() ==> tree_bounded(#[trigger] out@[i], k as int),
            orig.len() >= 1 && out@.len() >= 1 ==> payload(out@[0]) == payload(orig[0]),
            orig.len() >= 1 && out@.len() == 0 ==> cur@.len() >= 1 && payload(cur@[0]) == payload(
                orig[0],
            ),
            orig.len() == 0 ==> out@.len() == 0 && cur@.len() == 0,
            *steps as nat == sat_add(base, forest_size(out@)),
            base == sat_add(*old(steps) as nat, 1),
            forest_bounded(orig, k as int) ==> {
                &&& n_top == orig.len()
                &&& cur@ == orig.skip(out@.len() as int)
                &&& same_forest(out@, orig.subrange(0, out@.len() as int))
            },
        decreases cur@.len(),
    {
        let ghost cur0 = cur@;
        let ghost out0 = out@;
        let c = cur.remove(0);
        let ghost cv = c;
        proof {
            assert(cur0.remove(0) =~= cur0.drop_first());
            assert(forest_size(cur0) == tree_size(cur0[0]) + forest_size(cur@));
            assert(forest_payloads(cur0) == tree_payloads(cur0[0]).add(forest_payloads(cur@)));
            assert(tree_size(cv) == 1 + forest_size(cv.children@));
            if forest_bounded(orig, k as int) {
                assert(cv == orig[out0.len() as int]);
                assert(tree_bounded(orig[out0.len() as int], k as int));
            }
        }
        let Candidate { lines, fitness, children } = c;
        let ghost kids = children@;
        let new_children = optimize_forest(children, k, steps);
        let c2 = Candidate { lines, fitness, children: new_children };
        let ghost c2v = c2;
        proof {
            assert(payload(c2v) == payload(cv));
            assert(tree_payloads(c2v) == tree_payloads(cv));
            assert(tree_size(c2v) == tree_size(cv));
            assert(tree_bounded(c2v, k as int));
            lemma_forest_size_push(out0, c2v);
            lemma_forest_payloads_push(out0, c2v);
        }
        out.push(c2);
        proof {
            assert(out@[0] == if out0.len() == 0 { c2v } else { out0[0] });
            assert(forest_payloads(out@) == forest_payloads(out0).add(tree_payloads(c2v)));
            assert(forest_payloads(out0).add(tree_payloads(c2v)).add(forest_payloads(cur@))
                =~= forest_payloads(out0).add(tree_payloads(cv).add(forest_payloads(cur@))));
            assert(forall|i: int| 0 <= i < out0.len() ==> out@[i] == out0[i]);
            assert(out@[out0.len() as int] == c2v);
            // the counter saturates consistently across the recursion
            assert(sat_add(sat_add(base, forest_size(out0)), 1 + forest_size(kids)) == sat_add(
                base,
                forest_size(out@),
            ));
            if forest_bounded(orig, k as int) {
                assert(same_forest(kids, kids)) by {
                    lemma_same_forest_refl(kids);
                }
                assert(same_tree(c2v, cv));
                assert(cur@ =~= orig.skip(out@.len() as int));
                let pre = orig.subrange(0, out@.len() as int);
                assert(pre.len() == out@.len());
                assert forall|i: int| 0 <= i < out@.len() implies same_tree(
                    #[trigger] out@[i],
                    pre[i],
                ) by {
                    if i < out0.len() {
                        assert(out0[i] == out@[i]);
                        assert(pre[i] == orig.subrange(0, out0.len() as int)[i]);
                    } else {
                        assert(out@[i] == c2v);
                        assert(pre[i] == orig[out0.len() as int]);
                        assert(same_tree(c2v, cv));
                    }
                }
            }
        }
    }
    proof {
        assert(forest_payloads(cur@) == Multiset::<(Seq<usize>, Option<u32>)>::empty());
        assert(forest_payloads(out@).add(Multiset::empty()) =~= forest_payloads(out@));
        if forest_bounded(orig, k as int) {
            assert(orig.subrange(0, out@.len() as int) =~= orig);
        }
    }
    out
}

/// Rewrites the candidate list, and every child list below it, so that no
/// node keeps more than `max_siblings` direct children: while a sibling
/// list exceeds the bound, consecutive groups of `max_siblings` collapse
/// into their first member, which adopts the rest as children.  Every
/// candidate stays reachable — none is created, dropped or given a
/// different sequence — the first candidate keeps its place at the front,
/// and a tree that already satisfies the bound comes back identical.  A
/// bound below 2 could never terminate and is rejected
/// as `InvalidConfig`.  Adds one to `steps` per sibling list processed (for
/// diagnostics), stopping at `usize::MAX`.
pub fn optimize(
    candidates: &mut Vec<Candidate>,
    max_siblings: usize,
    steps: &mut usize,
) -> (r: Result<(), ShuffleError>)
    ensures
        max_siblings < 2 ==> {
            &&& r == Result::<(), ShuffleError>::Err(ShuffleError::InvalidConfig)
            &&& *final(candidates) == *old(candidates)
            &&& *final(steps) == *old(steps)
        },
        max_siblings >= 2 ==> {
            &&& r == Result::<(), ShuffleError>::Ok(())
            &&& forest_payloads(final(candidates)@) == forest_payloads(old(candidates)@)
            &&& forest_size(final(candidates)@) == forest_size(old(candidates)@)
            &&& forest_bounded(final(candidates)@, max_siblings as int)
            &&& (forest_bounded(old(candidates)@, max_siblings as int) ==> same_forest(
                final(candidates)@,
                old(candidates)@,
            ))
            &&& (old(candidates)@.len() >= 1 ==> final(candidates)@.len() >= 1 && payload(
                final(candidates)@[0],
            ) == payload(old(candidates)@[0]))
            &&& (old(candidates)@.len() == 0 ==> final(candidates)@.len() == 0)
            &&& *final(steps) as nat == sat_add(
                *old(steps) as nat,
                1 + forest_size(old(candidates)@),
            )
        },
{
    if max_siblings < 2 {
        return Err(ShuffleError::InvalidConfig);
    }
    let mut tmp: Vec<Candidate> = Vec::new();
    core::mem::swap(candidates, &mut tmp);
    let out = optimize_forest(tmp, max_siblings, steps);
    *candidates = out;
    Ok(())
}

} // verus!
