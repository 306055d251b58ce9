use vstd::arithmetic::div_mod::{lemma_basic_div, lemma_div_nonincreasing, lemma_div_plus_one};
use vstd::prelude::*;

verus! {

/// `n!`, the number of orderings of `n` chunks.
pub open spec fn factorial(n: nat) -> nat
    decreases n,
{
    if n == 0 {
        1
    } else {
        n * factorial((n - 1) as nat)
    }
}

pub proof fn lemma_factorial_pos(n: nat)
    ensures
        factorial(n) >= 1,
    decreases n,
{
    if n > 0 {
        lemma_factorial_pos((n - 1) as nat);
        assert(n * factorial((n - 1) as nat) >= 1 * factorial((n - 1) as nat)) by (nonlinear_arith)
            requires
                n >= 1,
                factorial((n - 1) as nat) >= 1,
        ;
    }
}

pub proof fn lemma_factorial_monotonic(m: nat, n: nat)
    requires
        m <= n,
    ensures
        factorial(m) <= factorial(n),
    decreases n,
{
    if m < n {
        lemma_factorial_monotonic(m, (n - 1) as nat);
        lemma_factorial_pos((n - 1) as nat);
        assert(factorial((n - 1) as nat) <= n * factorial((n - 1) as nat)) by (nonlinear_arith)
            requires
                n >= 1,
                factorial((n - 1) as nat) >= 0,
        ;
    }
}

/// How many chunks a sequence of `length` elements splits into at chunk size
/// `next`: `ceil(length / next)`.
pub open spec fn chunk_count_spec(length: nat, next: nat) -> nat {
    ((length + next - 1) / next as int) as nat
}

/// The exact number of candidates one expansion generates: the terminal case
/// contributes nothing; otherwise the block size halves (integer floor), the
/// sequence splits into `k = ceil(length / next)` chunks, and each of the
/// `k!` orderings of this level carries one full sub-expansion below it, for
/// `k! * (1 + estimate(length, next, min))` candidates in all.
pub open spec fn estimate_spec(length: nat, blocksize: nat, min_blocksize: nat) -> nat
    decreases blocksize,
{
    if blocksize <= 1 || blocksize < min_blocksize {
        0
    } else {
        let next = blocksize / 2;
        factorial(chunk_count_spec(length, next)) * (1 + estimate_spec(
            length,
            next,
            min_blocksize,
        ))
    }
}

/// The whole estimate is at least this level's `k!`, and at least any
/// deeper level's contribution.
pub proof fn lemma_estimate_parts(length: nat, blocksize: nat, min_blocksize: nat)
    requires
        !(blocksize <= 1 || blocksize < min_blocksize),
    ensures
        estimate_spec(length, blocksize, min_blocksize) >= factorial(
            chunk_count_spec(length, blocksize / 2),
        ),
        estimate_spec(length, blocksize, min_blocksize) > estimate_spec(
            length,
            blocksize / 2,
            min_blocksize,
        ),
{
    let next = blocksize / 2;
    let k = chunk_count_spec(length, next);
    let e = estimate_spec(length, next, min_blocksize);
    lemma_factorial_pos(k);
    assert(factorial(k) * (1 + e) >= factorial(k) * 1 && factorial(k) * (1 + e) >= 1 * (1 + e))
        by (nonlinear_arith)
        requires
            factorial(k) >= 1,
            e >= 0,
    ;
}

/// Computes `chunk_count_spec` without overflowing.
fn chunk_count(length: usize, next: usize) -> (k: usize)
    requires
        next >= 1,
    ensures
        k as nat == chunk_count_spec(length as nat, next as nat),
        k <= length,
{
    if length == 0 {
        proof {
            lemma_basic_div(next - 1, next as int);
        }
        0
    } else {
        proof {
            lemma_div_nonincreasing(length - 1, next as int);
            lemma_div_plus_one(length - 1, next as int);
        }
        (length - 1) / next + 1
    }
}

/// Calculates the exact number of candidates that expansion would generate
/// for `line_count` elements, a starting block size and a minimum block
/// size, without materializing any sequence.  The caller must know that the
/// count fits a `usize`; `try_estimate_count` checks that instead.
pub fn calculate_estimated_permutation_count(
    line_count: usize,
    blocksize: usize,
    min_blocksize: usize,
) -> (r: usize)
    requires
        estimate_spec(line_count as nat, blocksize as nat, min_blocksize as nat) <= usize::MAX,
    ensures
        r as nat == estimate_spec(line_count as nat, blocksize as nat, min_blocksize as nat),
    decreases blocksize,
{
    if blocksize <= 1 || blocksize < min_blocksize {
        return 0;
    }
    let next = blocksize / 2;
    let k = chunk_count(line_count, next);
    let ghost est = estimate_spec(line_count as nat, blocksize as nat, min_blocksize as nat);
    let ghost e_next = estimate_spec(line_count as nat, next as nat, min_blocksize as nat);
    proof {
        lemma_estimate_parts(line_count as nat, blocksize as nat, min_blocksize as nat);
    }
    let mut fact: usize = 1;
    let mut i: usize = 0;
    while i < k
        invariant
            i <= k,
            fact as nat == factorial(i as nat),
            factorial(k as nat) <= usize::MAX,
        decreases k - i,
    {
        i = i + 1;
        proof {
            assert(fact as nat == factorial((i - 1) as nat));
            assert(factorial(i as nat) == i * factorial((i - 1) as nat));
            lemma_factorial_monotonic(i as nat, k as nat);
            assert(factorial(i as nat) <= factorial(k as nat));
            assert(factorial(i as nat) <= usize::MAX);
            assert(fact * i == factorial(i as nat));
            assert(fact * i <= usize::MAX);
        }
        fact = fact * i;
    }
    let rest = calculate_estimated_permutation_count(line_count, next, min_blocksize);
    proof {
        assert(fact * (1 + e_next) == fact + rest * fact) by (nonlinear_arith)
            requires
                rest as nat == e_next,
        ;
    }
    fact + rest * fact
}

/// Like `calculate_estimated_permutation_count`, but reports `None` instead
/// of requiring the caller to know that the count fits a `usize`.
pub fn try_estimate_count(line_count: usize, blocksize: usize, min_blocksize: usize) -> (r: Option<
    usize,
>)
    ensures
        r matches Some(v) ==> v as nat == estimate_spec(
            line_count as nat,
            blocksize as nat,
            min_blocksize as nat,
        ),
        r is None ==> estimate_spec(line_count as nat, blocksize as nat, min_blocksize as nat)
            > usize::MAX,
    decreases blocksize,
{
    if blocksize <= 1 || blocksize < min_blocksize {
        return Some(0);
    }
    let next = blocksize / 2;
    let k = chunk_count(line_count, next);
    let ghost est = estimate_spec(line_count as nat, blocksize as nat, min_blocksize as nat);
    let ghost e_next = estimate_spec(line_count as nat, next as nat, min_blocksize as nat);
    proof {
        lemma_estimate_parts(line_count as nat, blocksize as nat, min_blocksize as nat);
        assert(k as nat == chunk_count_spec(line_count as nat, next as nat));
        assert(est >= factorial(k as nat));
    }
    let mut fact: usize = 1;
    let mut i: usize = 0;
    while i < k
        invariant
            i <= k,
            fact as nat == factorial(i as nat),
            est >= factorial(k as nat),
            est == estimate_spec(line_count as nat, blocksize as nat, min_blocksize as nat),
        decreases k - i,
    {
        i = i + 1;
        proof {
            assert(fact as nat == factorial((i - 1) as nat));
            assert(factorial(i as nat) == i * factorial((i - 1) as nat));
        }
        match fact.checked_mul(i) {
            Some(f) => {
                proof {
                    assert(f as nat == factorial(i as nat)) by (nonlinear_arith)
                        requires
                            f == fact * i,
                            fact as nat == factorial((i - 1) as nat),
                            factorial(i as nat) == i * factorial((i - 1) as nat),
                    ;
                }
                fact = f;
            },
            None => {
                proof {
                    lemma_factorial_monotonic(i as nat, k as nat);
                    assert(fact * i > usize::MAX);
                    assert(factorial(i as nat) > usize::MAX);
                    assert(factorial(k as nat) > usize::MAX);
                    assert(est > usize::MAX);
                }
                return None;
            },
        }
    }
    let rest = match try_estimate_count(line_count, next, min_blocksize) {
        Some(v) => v,
        None => {
            proof {
                assert(est > e_next > usize::MAX);
            }
            return None;
        },
    };
    let prod = match rest.checked_mul(fact) {
        Some(p) => p,
        None => {
            proof {
                assert(fact * (1 + e_next) >= e_next * fact) by (nonlinear_arith)
                    requires
                        fact >= 0,
                        e_next >= 0,
                ;
            }
            return None;
        },
    };
    match fact.checked_add(prod) {
        Some(total) => {
            proof {
                assert(fact * (1 + e_next) == fact + rest * fact) by (nonlinear_arith)
                    requires
                        rest as nat == e_next,
                ;
            }
            Some(total)
        },
        None => {
            proof {
                assert(fact * (1 + e_next) == fact + rest * fact) by (nonlinear_arith)
                    requires
                        rest as nat == e_next,
                ;
            }
            None
        },
    }
}

} // verus!
