//! Powers of two, strict base-2 logarithms and bit reversal of indices.
use vstd::prelude::*;
use vstd::arithmetic::div_mod::*;
use vstd::arithmetic::mul::*;
use vstd::arithmetic::power2::*;

verus! {

/// The largest `k` with `2^k <= n`, for a positive `n`.
pub open spec fn log2(n: nat) -> nat
    decreases n,
{
    if n <= 1 {
        0
    } else {
        1 + log2(n / 2)
    }
}

/// `n` is `2^k` for some `k`.
pub open spec fn is_power_of_two(n: nat) -> bool {
    n == pow2(log2(n))
}

/// The number whose `bits` binary digits are those of `i` in the opposite order.
pub open spec fn bit_reverse(i: nat, bits: nat) -> nat
    decreases bits,
{
    if bits == 0 {
        0
    } else {
        (i % 2) * pow2((bits - 1) as nat) + bit_reverse(i / 2, (bits - 1) as nat)
    }
}

/// `log2` inverts `pow2`.
pub proof fn lemma_log2_pow2(k: nat)
    ensures
        log2(pow2(k)) == k,
        is_power_of_two(pow2(k)),
    decreases k,
{
    lemma2_to64();
    if k > 0 {
        lemma_log2_pow2((k - 1) as nat);
        lemma_pow2_unfold(k);
        lemma_pow2_pos((k - 1) as nat);
    }
}

/// `log2` rounds down.
pub proof fn lemma_log2_bounds(n: nat)
    requires
        n > 0,
    ensures
        pow2(log2(n)) <= n < pow2(log2(n) + 1),
    decreases n,
{
    lemma2_to64();
    if n > 1 {
        lemma_log2_bounds(n / 2);
        lemma_pow2_unfold(log2(n));
        lemma_pow2_unfold(log2(n) + 1);
    }
}

/// Halving a power of two above one gives a power of two.
pub proof fn lemma_power_of_two_half(n: nat)
    requires
        is_power_of_two(n),
        n > 1,
    ensures
        n % 2 == 0,
        is_power_of_two(n / 2),
        log2(n) == log2(n / 2) + 1,
{
    lemma_pow2_unfold(log2(n));
}

/// A power of two that divides another one: the exponents subtract.
pub proof fn lemma_pow2_split(a: nat, b: nat)
    requires
        b <= a,
    ensures
        pow2(a) == pow2((a - b) as nat) * pow2(b),
        pow2(b) <= pow2(a),
        pow2(a) / pow2(b) == pow2((a - b) as nat),
{
    lemma_pow2_adds((a - b) as nat, b);
    lemma_pow2_pos((a - b) as nat);
    lemma_pow2_pos(b);
    let x = pow2((a - b) as nat) as int;
    let y = pow2(b) as int;
    assert(y <= x * y) by (nonlinear_arith)
        requires
            x >= 1,
            y >= 1,
    ;
    lemma_div_by_multiple(x, y);
}

/// Larger exponents give larger powers.
pub proof fn lemma_pow2_monotone(a: nat, b: nat)
    requires
        a <= b,
    ensures
        0 < pow2(a) <= pow2(b),
{
    lemma_pow2_split(b, a);
    lemma_pow2_pos(a);
}

/// A power of two that fits in a `usize` has an exponent below 64.
pub proof fn lemma_pow2_fits_usize(k: nat)
    requires
        pow2(k) <= usize::MAX,
    ensures
        k < 64,
{
    if k >= 64 {
        lemma_pow2_monotone(64, k);
        lemma2_to64_rest();
    }
}

/// Bit reversal stays below `2^bits`.
pub proof fn lemma_bit_reverse_bound(i: nat, bits: nat)
    ensures
        bit_reverse(i, bits) < pow2(bits),
    decreases bits,
{
    lemma2_to64();
    if bits > 0 {
        lemma_bit_reverse_bound(i / 2, (bits - 1) as nat);
        lemma_pow2_unfold(bits);
        let h = pow2((bits - 1) as nat) as int;
        assert((i % 2) * h <= h) by (nonlinear_arith)
            requires
                h >= 0,
        ;
    }
}

/// Peeling the top digit instead of the bottom one.
proof fn lemma_bit_reverse_top(lo: nat, hi: nat, bits: nat)
    requires
        bits > 0,
        lo < pow2((bits - 1) as nat),
        hi < 2,
    ensures
        bit_reverse(hi * pow2((bits - 1) as nat) + lo, bits) == 2 * bit_reverse(
            lo,
            (bits - 1) as nat,
        ) + hi,
    decreases bits,
{
    lemma2_to64();
    let b1 = (bits - 1) as nat;
    let i = hi * pow2(b1) + lo;
    if b1 == 0 {
        assert(lo == 0);
        assert(i == hi) by (nonlinear_arith)
            requires
                i == hi * 1 + 0,
        ;
        assert(bit_reverse(i / 2, 0) == 0);
        assert(bit_reverse(lo, 0) == 0);
        assert((i % 2) * pow2(0) == hi) by (nonlinear_arith)
            requires
                pow2(0) == 1,
                i % 2 == hi,
        ;
    } else {
        let b2 = (b1 - 1) as nat;
        lemma_pow2_unfold(b1);
        let h = hi * pow2(b2);
        assert(hi * pow2(b1) == 2 * h) by (nonlinear_arith)
            requires
                pow2(b1) == 2 * pow2(b2),
                h == hi * pow2(b2),
        ;
        assert(i % 2 == lo % 2);
        assert(i / 2 == h + lo / 2);
        lemma_bit_reverse_top(lo / 2, hi, b1);
        let c = lo % 2;
        assert(c * pow2(b1) == 2 * (c * pow2(b2))) by (nonlinear_arith)
            requires
                pow2(b1) == 2 * pow2(b2),
        ;
    }
}

/// Reversing the digits twice gives the index back.
pub proof fn lemma_bit_reverse_involution(i: nat, bits: nat)
    requires
        i < pow2(bits),
    ensures
        bit_reverse(bit_reverse(i, bits), bits) == i,
    decreases bits,
{
    lemma2_to64();
    if bits > 0 {
        let b1 = (bits - 1) as nat;
        lemma_pow2_unfold(bits);
        lemma_bit_reverse_involution(i / 2, b1);
        lemma_bit_reverse_bound(i / 2, b1);
        lemma_bit_reverse_top(bit_reverse(i / 2, b1), i % 2, bits);
    }
}

/// `2^k` as a machine integer.
pub fn pow2_exec(k: usize) -> (r: usize)
    requires
        pow2(k as nat) <= usize::MAX,
    ensures
        r == pow2(k as nat),
{
    proof {
        lemma2_to64();
    }
    let mut r: usize = 1;
    let mut i: usize = 0;
    while i < k
        invariant
            i <= k,
            r == pow2(i as nat),
            pow2(k as nat) <= usize::MAX,
        decreases k - i,
    {
        proof {
            lemma_pow2_unfold((i + 1) as nat);
            lemma_pow2_monotone((i + 1) as nat, k as nat);
        }
        r = r * 2;
        i = i + 1;
    }
    r
}

/// Whether `n` is a power of two.
pub fn check_power_of_two(n: usize) -> (r: bool)
    ensures
        r == is_power_of_two(n as nat),
{
    proof {
        lemma2_to64();
    }
    if n == 0 {
        return false;
    }
    let mut m: usize = n;
    while m % 2 == 0
        invariant
            m > 0,
            is_power_of_two(m as nat) == is_power_of_two(n as nat),
        decreases m,
    {
        proof {
            if is_power_of_two(m as nat) {
                lemma_power_of_two_half(m as nat);
            }
            if is_power_of_two(m as nat / 2) {
                lemma_pow2_unfold((log2(m as nat / 2) + 1) as nat);
            }
        }
        m = m / 2;
    }
    proof {
        if m > 1 && is_power_of_two(m as nat) {
            lemma_power_of_two_half(m as nat);
        }
    }
    m == 1
}

/// The base-2 logarithm of a power of two.
pub fn log2_strict(n: usize) -> (r: usize)
    requires
        is_power_of_two(n as nat),
    ensures
        r == log2(n as nat),
        n == pow2(r as nat),
        r < 64,
{
    let mut m: usize = n;
    let mut r: usize = 0;
    proof {
        lemma_pow2_pos(log2(n as nat));
        lemma_pow2_fits_usize(log2(n as nat));
    }
    while m > 1
        invariant
            m > 0,
            is_power_of_two(m as nat),
            r + log2(m as nat) == log2(n as nat),
            log2(n as nat) < 64,
        decreases m,
    {
        proof {
            lemma_power_of_two_half(m as nat);
        }
        m = m / 2;
        r = r + 1;
    }
    r
}

/// `i` with its lowest `bits` binary digits reversed.
pub fn reverse_bits(i: usize, bits: usize) -> (r: usize)
    requires
        pow2(bits as nat) <= usize::MAX,
    ensures
        r == bit_reverse(i as nat, bits as nat),
        r < pow2(bits as nat),
    decreases bits,
{
    if bits == 0 {
        proof {
            lemma2_to64();
        }
        return 0;
    }
    proof {
        lemma_pow2_monotone((bits - 1) as nat, bits as nat);
        lemma_bit_reverse_bound(i as nat, bits as nat);
        lemma_mul_basics(pow2((bits - 1) as nat) as int);
    }
    let rest: usize = reverse_bits(i / 2, bits - 1);
    if i % 2 == 1 {
        pow2_exec(bits - 1) + rest
    } else {
        rest
    }
}

/// The powers of two are the numbers `2^k`, and `log2` is their exponent.
pub proof fn lemma_powers_of_two(n: nat)
    ensures
        is_power_of_two(n) <==> exists|k: nat| n == #[trigger] pow2(k),
        forall|k: nat| n == #[trigger] pow2(k) ==> log2(n) == k,
{
    assert forall|k: nat| n == #[trigger] pow2(k) implies log2(n) == k && is_power_of_two(n) by {
        lemma_log2_pow2(k);
    }
}

/// Binary digit `j` of the reversed index is digit `bits - 1 - j` of the index.
pub proof fn lemma_bit_reverse_digit(i: nat, bits: nat, j: nat)
    requires
        j < bits,
    ensures
        (bit_reverse(i, bits) / pow2(j)) % 2 == (i / pow2((bits - 1 - j) as nat)) % 2,
    decreases bits,
{
    let b1 = (bits - 1) as nat;
    let c = (i % 2) as int;
    let rest = bit_reverse(i / 2, b1) as int;
    let top = pow2(b1) as int;
    lemma2_to64();
    lemma_bit_reverse_bound(i / 2, b1);
    lemma_pow2_pos(j);
    lemma_pow2_pos(b1);
    if j == b1 {
        lemma_fundamental_div_mod_converse(c * top + rest, top, c, rest);
        lemma_div_basics(i as int);
    } else {
        lemma_bit_reverse_digit(i / 2, b1, j);
        let d = pow2(j) as int;
        let q = pow2((b1 - j) as nat) as int;
        lemma_pow2_split(b1, j);
        lemma_pow2_unfold((b1 - j) as nat);
        let h = pow2((b1 - j - 1) as nat) as int;
        assert(c * top + rest == d * (c * q) + rest) by (nonlinear_arith)
            requires
                top == q * d,
        ;
        lemma_hoist_over_denominator(rest, c * q, d as nat);
        assert(c * q == 2 * (c * h)) by (nonlinear_arith)
            requires
                q == 2 * h,
        ;
        let e = (bits - 1 - j) as nat;
        lemma_pow2_unfold(e);
        lemma_pow2_pos((e - 1) as nat);
        lemma_div_denominator(i as int, 2, pow2((e - 1) as nat) as int);
        assert((b1 - 1 - j) as nat == (e - 1) as nat);
    }
}

} // verus!
