//! A recursive factorial, the classic single-argument recursion.

use vstd::prelude::*;

verus! {

/// The factorial of `n`.
pub open spec fn spec_factorial(n: nat) -> nat
    decreases n,
{
    if n == 0 {
        1
    } else {
        n * spec_factorial((n - 1) as nat)
    }
}

/// A recursive factorial.
///
/// The factorial of zero is one; otherwise it is the factorial of the
/// predecessor times the input. The factorial must fit in the result type:
/// inputs past twenty overflow a `u64` and are excluded.
pub fn factorial(i: u64) -> (r: u64)
    requires
        spec_factorial(i as nat) <= u64::MAX,
    ensures
        r == spec_factorial(i as nat),
    decreases i,
{
    if i == 0 {
        1
    } else {
        proof {
            let tail = spec_factorial((i - 1) as nat);
            assert(tail <= i * tail) by (nonlinear_arith)
                requires
                    i >= 1,
                    tail >= 0,
            ;
        }
        let prev = factorial(i - 1);
        proof {
            assert(spec_factorial(i as nat) == i as nat * spec_factorial((i - 1) as nat));
            assert(prev as nat * i as nat == i as nat * prev as nat) by (nonlinear_arith);
        }
        prev * i
    }
}

} // verus!
