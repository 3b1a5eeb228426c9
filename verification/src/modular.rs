//! Congruences modulo the Goldilocks prime.
use vstd::prelude::*;
use vstd::arithmetic::div_mod::*;
use vstd::arithmetic::mul::*;
use vstd::arithmetic::power::*;

verus! {

/// The Goldilocks prime, `2^64 - 2^32 + 1`.
pub open spec fn prime() -> int {
    0xFFFF_FFFF_0000_0001
}

/// `a` and `b` stand for the same field element.
pub open spec fn cong(a: int, b: int) -> bool {
    a % prime() == b % prime()
}

/// A number and its remainder stand for the same element.
pub proof fn lemma_cong_mod(a: int)
    ensures
        cong(a % prime(), a),
        0 <= a % prime() < prime(),
{
    lemma_mod_twice(a, prime());
}

/// Sums respect congruence.
pub proof fn lemma_cong_add(a: int, b: int, c: int, d: int)
    requires
        cong(a, b),
        cong(c, d),
    ensures
        cong(a + c, b + d),
{
    lemma_add_mod_noop(a, c, prime());
    lemma_add_mod_noop(b, d, prime());
}

/// Differences respect congruence.
pub proof fn lemma_cong_sub(a: int, b: int, c: int, d: int)
    requires
        cong(a, b),
        cong(c, d),
    ensures
        cong(a - c, b - d),
{
    lemma_sub_mod_noop(a, c, prime());
    lemma_sub_mod_noop(b, d, prime());
}

/// Products respect congruence.
pub proof fn lemma_cong_mul(a: int, b: int, c: int, d: int)
    requires
        cong(a, b),
        cong(c, d),
    ensures
        cong(a * c, b * d),
{
    lemma_mul_mod_noop(a, c, prime());
    lemma_mul_mod_noop(b, d, prime());
}

/// Powers respect congruence.
pub proof fn lemma_cong_pow(a: int, b: int, e: nat)
    requires
        cong(a, b),
    ensures
        cong(pow(a, e), pow(b, e)),
{
    lemma_pow_mod_noop(a, e, prime());
    lemma_pow_mod_noop(b, e, prime());
}

/// Multiples of the prime vanish.
pub proof fn lemma_cong_multiple(a: int, k: int)
    ensures
        cong(a + k * prime(), a),
{
    lemma_mod_multiples_vanish(k, a, prime());
    lemma_mul_is_commutative(k, prime());
}

/// Two numbers stand for the same field element where their difference is a multiple of
/// `2^64 - 2^32 + 1`.
pub proof fn lemma_cong_meaning(a: int, b: int)
    ensures
        cong(a, b) <==> (a - b) % 18446744069414584321 == 0,
{
    lemma_mod_equivalence(a, b, 18446744069414584321);
}

} // verus!
