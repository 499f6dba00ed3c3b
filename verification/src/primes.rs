//! The `n`-th prime, which scales the `n`-th variable of a mutation.

use vstd::prelude::*;

verus! {

/// `p` is prime.
pub open spec fn is_prime(p: nat) -> bool {
    p >= 2 && forall|d: nat| 2 <= d < p ==> #[trigger] (p % d) != 0
}

/// The number of primes below `p`.
pub open spec fn primes_below(p: nat) -> nat
    decreases p,
{
    if p == 0 {
        0
    } else {
        primes_below((p - 1) as nat) + if is_prime((p - 1) as nat) { 1nat } else { 0nat }
    }
}

/// `p` is the `n`-th prime, counting from one (the first prime is 2).
pub open spec fn is_nth_prime(p: nat, n: nat) -> bool {
    is_prime(p) && primes_below(p) + 1 == n
}

/// The `n`-th prime, counting from one.
pub open spec fn nth_prime(n: nat) -> nat {
    choose|p: nat| is_nth_prime(p, n)
}

/// The largest index that `primal` accepts.
pub const MAX_PRIME_INDEX: u64 = 425281711831682432;

/// The largest index admitted where `usize` is narrower than 64 bits: the
/// largest `n` whose upper estimate in `primal` (for `n >= 688383`,
/// `n * (ln n + ln ln n - 1 + (ln ln n - 2) / ln n)`, which grows with `n`)
/// is below `2^32`; at this `n` it is 4294967279, at the next 4294967301.
pub const NARROW_MAX_PRIME_INDEX: u64 = 203254783;

/// The largest prime index that is admitted on this target.
pub open spec fn prime_index_bound() -> int {
    if usize::BITS == 64 {
        MAX_PRIME_INDEX as int
    } else {
        NARROW_MAX_PRIME_INDEX as int
    }
}

/// The largest prime index that is admitted on this target.
pub fn prime_index_bound_exec() -> (r: u64)
    ensures
        r == prime_index_bound(),
{
    if usize::BITS == 64 {
        MAX_PRIME_INDEX
    } else {
        NARROW_MAX_PRIME_INDEX
    }
}

/// Computes the `n`-th prime, counting from one.
///
/// Trusted: calls `primal::StreamingSieve::nth_prime`, documented as
/// computing the `n`-th prime, 1-indexed (`nth_prime(1) == 2`,
/// `nth_prime(2) == 3`). Its source asserts `n > 0`, and the estimate it
/// starts from asserts `n <= 425281711831682432`; `requires` leaves out
/// both panics. Where `usize` is narrower than 64 bits the sieve's limit
/// is the estimate cast to `usize`; an index whose estimate does not fit is
/// truncated and ends in `unreachable!()`, so `requires` admits there only
/// indexes up to `NARROW_MAX_PRIME_INDEX`, whose estimate fits. The contract
/// claims that the result is the `n`-th prime.
#[verifier::external_body]
fn primal_nth_prime(n: usize) -> (p: usize)
    requires
        1 <= n,
        n <= prime_index_bound(),
    ensures
        is_nth_prime(p as nat, n as nat),
{
    primal::StreamingSieve::nth_prime(n)
}

proof fn lemma_primes_below_monotone(a: nat, b: nat)
    requires
        a <= b,
    ensures
        primes_below(a) <= primes_below(b),
    decreases b - a,
{
    if a < b {
        lemma_primes_below_monotone(a, (b - 1) as nat);
    }
}

/// There is at most one `n`-th prime.
pub proof fn lemma_nth_prime_unique(p: nat, q: nat, n: nat)
    requires
        is_nth_prime(p, n),
        is_nth_prime(q, n),
    ensures
        p == q,
{
    if p < q {
        lemma_primes_below_monotone(p + 1, q);
    } else if q < p {
        lemma_primes_below_monotone(q + 1, p);
    }
}

/// Different indexes name different primes: each variable of a mutation is
/// scaled by a prime of its own.
pub proof fn lemma_nth_prime_distinct(p: nat, q: nat, n: nat, m: nat)
    requires
        is_nth_prime(p, n),
        is_nth_prime(q, m),
        n != m,
    ensures
        p != q,
{
}

/// The `n`-th prime, counting from one.
pub fn nth_prime_exec(n: usize) -> (p: u64)
    requires
        1 <= n,
        n <= prime_index_bound(),
    ensures
        p as nat == nth_prime(n as nat),
        is_nth_prime(p as nat, n as nat),
{
    let p = primal_nth_prime(n);
    proof {
        assert(is_nth_prime(p as nat, n as nat));
        let c = nth_prime(n as nat);
        assert(is_nth_prime(c, n as nat));
        lemma_nth_prime_unique(p as nat, c, n as nat);
    }
    p as u64
}

} // verus!
