use vstd::prelude::*;

verus! {

/// The step of the Collatz sequence: half of an even number, three times an
/// odd number plus one.
pub open spec fn collatz_step(n: int) -> int {
    if n % 2 == 0 {
        n / 2
    } else {
        3 * n + 1
    }
}

/// The number that follows `n` in its Collatz sequence.
pub fn next_number(n: u64) -> (r: u64)
    requires
        n % 2 == 0 || 3 * n + 1 <= u64::MAX,
    ensures
        r == collatz_step(n as int),
{
    if n % 2 == 0 {
        return n / 2;
    } else {
        return 3 * n + 1;
    }
}

} // verus!
