//! Roots of unity of two-power order, and how evaluation at their powers is undone.
use vstd::prelude::*;
use vstd::arithmetic::mul::*;
use vstd::arithmetic::power::*;
use vstd::arithmetic::power2::*;
use crate::goldilocks;
use crate::modular;
use crate::polynomial;

verus! {

/// `w` is a root of unity of order exactly `2^lg`: its `2^(lg - 1)`-th power is minus one.
pub open spec fn is_root(w: int, lg: nat) -> bool {
    if lg == 0 {
        modular::cong(w, 1)
    } else {
        modular::cong(pow(w, pow2((lg - 1) as nat)), -1)
    }
}

/// The root of unity of order `2^lg` that transforms of length `2^lg` use.
pub open spec fn root_of_unity(lg: nat) -> int {
    pow(goldilocks::POWER_OF_TWO_GENERATOR as int, pow2((goldilocks::TWO_ADICITY - lg) as nat))
        % modular::prime()
}

/// The inverse of the root of unity of order `2^lg`.
pub open spec fn inverse_root(lg: nat) -> int {
    pow(root_of_unity(lg), (pow2(lg) - 1) as nat)
}

/// The values of `c` at the powers of `w`.
pub open spec fn transform(c: Seq<int>, w: int) -> Seq<int> {
    Seq::new(c.len(), |k: int| polynomial::eval(c, pow(w, k as nat)))
}

/// One squaring of the generator.
proof fn lemma_square_step(e: nat, a: int, b: int)
    requires
        modular::cong(
            pow(goldilocks::POWER_OF_TWO_GENERATOR as int, pow2(e)),
            a,
        ),
        (a * a) % modular::prime() == b,
    ensures
        modular::cong(
            pow(goldilocks::POWER_OF_TWO_GENERATOR as int, pow2(e + 1)),
            b,
        ),
{
    let g = goldilocks::POWER_OF_TWO_GENERATOR as int;
    lemma_pow2_unfold(e + 1);
    lemma_pow_adds(g, pow2(e), pow2(e));
    modular::lemma_cong_mul(pow(g, pow2(e)), a, pow(g, pow2(e)), a);
    modular::lemma_cong_mod(a * a);
}

/// The generator's `2^31`-th power is minus one.
proof fn lemma_generator_order()
    ensures
        modular::cong(pow(goldilocks::POWER_OF_TWO_GENERATOR as int, pow2(31)), -1),
{
    lemma2_to64();
    lemma_pow1(goldilocks::POWER_OF_TWO_GENERATOR as int);
    lemma_square_step(0, 7277203076849721926, 3524815499551269279);
    lemma_square_step(1, 3524815499551269279, 1905180297017055339);
    lemma_square_step(2, 1905180297017055339, 2530564950562219707);
    lemma_square_step(3, 2530564950562219707, 2147253751702802259);
    lemma_square_step(4, 2147253751702802259, 4969973714567017225);
    lemma_square_step(5, 4969973714567017225, 3757607247483852735);
    lemma_square_step(6, 3757607247483852735, 8877499657461974390);
    lemma_square_step(7, 8877499657461974390, 2709866199236980323);
    lemma_square_step(8, 2709866199236980323, 5936499541590631774);
    lemma_square_step(9, 5936499541590631774, 8124823329697072476);
    lemma_square_step(10, 8124823329697072476, 6553637399136210105);
    lemma_square_step(11, 6553637399136210105, 1971462654193939361);
    lemma_square_step(12, 1971462654193939361, 8982441859486529725);
    lemma_square_step(13, 8982441859486529725, 3411401055030829696);
    lemma_square_step(14, 3411401055030829696, 5718075921287398682);
    lemma_square_step(15, 5718075921287398682, 8167150655112846419);
    lemma_square_step(16, 8167150655112846419, 1873558160482552414);
    lemma_square_step(17, 1873558160482552414, 7126024226993609386);
    lemma_square_step(18, 7126024226993609386, 4308460244895131701);
    lemma_square_step(19, 4308460244895131701, 4355325209153869931);
    lemma_square_step(20, 4355325209153869931, 9113133275150391358);
    lemma_square_step(21, 9113133275150391358, 4255134452441852017);
    lemma_square_step(22, 4255134452441852017, 6434636298004421797);
    lemma_square_step(23, 6434636298004421797, 4404853092538523347);
    lemma_square_step(24, 4404853092538523347, 2198989700608);
    lemma_square_step(25, 2198989700608, 8);
    lemma_square_step(26, 8, 64);
    lemma_square_step(27, 64, 4096);
    lemma_square_step(28, 4096, 16777216);
    lemma_square_step(29, 16777216, 281474976710656);
    lemma_square_step(30, 281474976710656, 18446744069414584320);
}

/// Squaring a root of order `2^lg` gives one of order `2^(lg - 1)`.
pub proof fn lemma_root_square(w: int, lg: nat)
    requires
        lg > 0,
        is_root(w, lg),
    ensures
        is_root(w * w, (lg - 1) as nat),
{
    lemma2_to64();
    if lg == 1 {
        lemma_pow1(w);
        modular::lemma_cong_mul(w, -1, w, -1);
    } else {
        let e = pow2((lg - 2) as nat);
        lemma_pow2_unfold((lg - 1) as nat);
        lemma_square_is_pow2(w);
        lemma_pow_multiplies(w, 2, e);
    }
}

/// The `2^lg`-th power of a root of order `2^lg` is one.
pub proof fn lemma_root_order(w: int, lg: nat)
    requires
        is_root(w, lg),
    ensures
        modular::cong(pow(w, pow2(lg)), 1),
{
    lemma2_to64();
    if lg == 0 {
        lemma_pow1(w);
    } else {
        let h = pow2((lg - 1) as nat);
        lemma_pow2_unfold(lg);
        lemma_pow_adds(w, h, h);
        modular::lemma_cong_mul(pow(w, h), -1, pow(w, h), -1);
    }
}

/// Elements that stand for the same field element are roots of the same order.
pub proof fn lemma_root_cong(a: int, b: int, lg: nat)
    requires
        modular::cong(a, b),
        is_root(a, lg),
    ensures
        is_root(b, lg),
{
    if lg > 0 {
        modular::lemma_cong_pow(a, b, pow2((lg - 1) as nat));
    }
}

/// The inverse of a root is a root of the same order.
pub proof fn lemma_root_inverse(w: int, u: int, lg: nat)
    requires
        is_root(w, lg),
        modular::cong(w * u, 1),
    ensures
        is_root(u, lg),
{
    if lg == 0 {
        modular::lemma_cong_mul(w, 1, u, u);
    } else {
        let e = pow2((lg - 1) as nat);
        modular::lemma_cong_pow(w * u, 1, e);
        lemma_pow_distributes(w, u, e);
        lemma1_pow(e);
        // w^e * u^e is one and w^e is minus one.
        let a = pow(w, e);
        let b = pow(u, e);
        modular::lemma_cong_mul(a, -1, b, b);
        modular::lemma_cong_sub(0, 0, a * b, -1 * b);
        modular::lemma_cong_sub(0, 0, a * b, 1);
        assert(0 - (-1 * b) == b);
    }
}

/// `root_of_unity(lg)` is a root of order `2^lg`.
pub proof fn lemma_root_of_unity(lg: nat)
    requires
        lg <= goldilocks::TWO_ADICITY,
    ensures
        is_root(root_of_unity(lg), lg),
        0 <= root_of_unity(lg) < modular::prime(),
{
    let g = goldilocks::POWER_OF_TWO_GENERATOR as int;
    let e = pow2((goldilocks::TWO_ADICITY - lg) as nat);
    lemma_generator_order();
    modular::lemma_cong_mod(pow(g, e));
    if lg == 0 {
        lemma_pow2_unfold(32);
        lemma_pow_adds(g, pow2(31), pow2(31));
        modular::lemma_cong_mul(pow(g, pow2(31)), -1, pow(g, pow2(31)), -1);
    } else {
        let h = pow2((lg - 1) as nat);
        lemma_pow2_adds((goldilocks::TWO_ADICITY - lg) as nat, (lg - 1) as nat);
        lemma_pow_multiplies(g, e, h);
        modular::lemma_cong_pow(root_of_unity(lg), pow(g, e), h);
    }
}

/// A power of a root, half the order further, has the opposite sign.
pub proof fn lemma_root_half_turn(w: int, lg: nat, k: nat)
    requires
        lg > 0,
        is_root(w, lg),
    ensures
        modular::cong(pow(w, k + pow2((lg - 1) as nat)), -pow(w, k)),
{
    let h = pow2((lg - 1) as nat);
    lemma_pow_adds(w, k, h);
    modular::lemma_cong_mul(pow(w, k), pow(w, k), pow(w, h), -1);
    assert(pow(w, k) * -1 == -pow(w, k)) by (nonlinear_arith);
}

/// The powers of the square of `w` are the squares of its powers.
pub proof fn lemma_pow_square(w: int, k: nat)
    ensures
        pow(w * w, k) == pow(w, k) * pow(w, k),
        pow(w * w, k) == pow(w, 2 * k),
{
    lemma_pow_distributes(w, w, k);
    lemma_pow_adds(w, k, k);
}

/// How a transform of length `2^lg` is put together from two of half the length.
pub proof fn lemma_butterfly(c: Seq<int>, w: int, lg: nat, k: nat)
    requires
        lg > 0,
        c.len() == pow2(lg),
        is_root(w, lg),
    ensures
        ({
            let e = polynomial::eval(polynomial::evens(c), pow(w * w, k));
            let o = polynomial::eval(polynomial::odds(c), pow(w * w, k));
            &&& polynomial::eval(c, pow(w, k)) == e + pow(w, k) * o
            &&& modular::cong(
                polynomial::eval(c, pow(w, k + pow2((lg - 1) as nat))),
                e - pow(w, k) * o,
            )
        }),
{
    let x = pow(w, k);
    let h = pow2((lg - 1) as nat);
    lemma_pow2_unfold(lg);
    lemma_pow_square(w, k);
    polynomial::lemma_eval_even_odd(c, x);
    polynomial::lemma_eval_even_odd(c, -x);
    assert((-x) * (-x) == x * x) by (nonlinear_arith);
    let o = polynomial::eval(polynomial::odds(c), x * x);
    assert((-x) * o == -(x * o)) by (nonlinear_arith);
    lemma_root_half_turn(w, lg, k);
    polynomial::lemma_eval_cong(c, c, pow(w, k + h), -x);
}

/// Transforming with a root and then with its inverse multiplies by the length.
pub proof fn lemma_transform_inverse(c: Seq<int>, w: int, u: int, lg: nat, j: nat)
    requires
        c.len() == pow2(lg),
        is_root(w, lg),
        modular::cong(w * u, 1),
        j < pow2(lg),
    ensures
        modular::cong(
            polynomial::eval(transform(c, w), pow(u, j)),
            pow2(lg) * c[j as int],
        ),
    decreases lg,
{
    let v = transform(c, w);
    lemma2_to64();
    if lg == 0 {
        lemma_pow0(w);
        lemma_pow0(u);
        assert(j == 0);
        reveal_with_fuel(polynomial::eval, 2);
        lemma_mul_basics(c[0]);
    } else {
        let m = pow2((lg - 1) as nat);
        let t = j / 2;
        let w2 = w * w;
        let u2 = u * u;
        let ev = polynomial::evens(c);
        let od = polynomial::odds(c);
        let te = transform(ev, w2);
        let to = transform(od, w2);
        let x = pow(u, j);
        let y = pow(u2, t);
        let lo = v.subrange(0, m as int);
        let hi = v.subrange(m as int, (2 * m) as int);
        lemma_pow2_unfold(lg);
        lemma_root_square(w, lg);
        lemma_root_inverse(w, u, lg);
        modular::lemma_cong_mul(w * u, 1, w * u, 1);
        assert(w2 * u2 == (w * u) * (w * u)) by (nonlinear_arith)
            requires
                w2 == w * w,
                u2 == u * u,
        ;
        lemma_pow_square(u, t);

        // The value at x, half by half.
        assert(v =~= lo + hi);
        polynomial::lemma_eval_concat(lo, hi, x);
        let s = pow(x, m);
        lemma_root_even_odd_power(u, lg, j);
        let sign: int = if j % 2 == 0 {
            1
        } else {
            -1
        };
        let both = Seq::new(m, |k: int| 1 * lo[k] + sign * hi[k]);
        polynomial::lemma_eval_linear(lo, hi, both, 1, sign, x);
        modular::lemma_cong_mul(s, sign, polynomial::eval(hi, x), polynomial::eval(hi, x));
        modular::lemma_cong_add(
            polynomial::eval(lo, x),
            polynomial::eval(lo, x),
            s * polynomial::eval(hi, x),
            sign * polynomial::eval(hi, x),
        );
        assert(modular::cong(polynomial::eval(v, x), polynomial::eval(both, x)));

        // Each sum or difference of the halves is twice a half-length transform.
        if j % 2 == 0 {
            assert(x == y);
            let twice = Seq::new(m, |k: int| 2 * te[k] + 0 * te[k]);
            assert forall|k: int| 0 <= k < m implies modular::cong(
                #[trigger] both[k],
                twice[k],
            ) by {
                lemma_butterfly(c, w, lg, k as nat);
                let e = polynomial::eval(ev, pow(w2, k as nat));
                let o = pow(w, k as nat) * polynomial::eval(od, pow(w2, k as nat));
                modular::lemma_cong_add(v[k], e + o, v[k + m], e - o);
            }
            polynomial::lemma_eval_cong(both, twice, x, y);
            polynomial::lemma_eval_linear(te, te, twice, 2, 0, y);
            lemma_transform_inverse(ev, w2, u2, (lg - 1) as nat, t);
            modular::lemma_cong_mul(2, 2, polynomial::eval(te, y), m * ev[t as int]);
            assert(2 * (m * ev[t as int]) == pow2(lg) * c[j as int]) by (nonlinear_arith)
                requires
                    pow2(lg) == 2 * m,
                    ev[t as int] == c[j as int],
            ;
        } else {
            let tw = polynomial::twist(to, w);
            let twice = Seq::new(m, |k: int| 2 * tw[k] + 0 * tw[k]);
            assert forall|k: int| 0 <= k < m implies modular::cong(
                #[trigger] both[k],
                twice[k],
            ) by {
                lemma_butterfly(c, w, lg, k as nat);
                let e = polynomial::eval(ev, pow(w2, k as nat));
                let o = polynomial::eval(od, pow(w2, k as nat));
                let q = pow(w, k as nat);
                modular::lemma_cong_sub(v[k], e + q * o, v[k + m], e - q * o);
                lemma_mul_is_commutative(q, o);
            }
            polynomial::lemma_eval_cong(both, twice, x, x);
            polynomial::lemma_eval_linear(tw, tw, twice, 2, 0, x);
            polynomial::lemma_eval_twist(to, w, x);
            // w * x is congruent to y.
            assert(j == 2 * t + 1);
            lemma_pow_adds(u, 1, 2 * t);
            lemma_pow1(u);
            assert(x == u * y);
            lemma_mul_is_associative(w, u, y);
            modular::lemma_cong_mul(w * u, 1, y, y);
            polynomial::lemma_eval_cong(to, to, w * x, y);
            lemma_transform_inverse(od, w2, u2, (lg - 1) as nat, t);
            modular::lemma_cong_mul(2, 2, polynomial::eval(to, w * x), m * od[t as int]);
            assert(2 * (m * od[t as int]) == pow2(lg) * c[j as int]) by (nonlinear_arith)
                requires
                    pow2(lg) == 2 * m,
                    od[t as int] == c[j as int],
            ;
        }
    }
}

/// The half-order power of `u^j` is one for even `j` and minus one for odd `j`.
proof fn lemma_root_even_odd_power(u: int, lg: nat, j: nat)
    requires
        lg > 0,
        is_root(u, lg),
    ensures
        modular::cong(
            pow(pow(u, j), pow2((lg - 1) as nat)),
            if j % 2 == 0 {
                1
            } else {
                -1
            },
        ),
{
    let m = pow2((lg - 1) as nat);
    let s = pow(u, m);
    lemma_pow_multiplies(u, j, m);
    lemma_pow_multiplies(u, m, j);
    lemma_mul_is_commutative(j as int, m as int);
    modular::lemma_cong_pow(s, -1, j);
    lemma_minus_one_pow(j);
}

/// Powers of minus one.
proof fn lemma_minus_one_pow(j: nat)
    ensures
        pow(-1, j) == if j % 2 == 0 {
            1int
        } else {
            -1int
        },
    decreases j,
{
    reveal(pow);
    if j > 0 {
        lemma_minus_one_pow((j - 1) as nat);
    }
}

/// The inverse root is the inverse of the root.
pub proof fn lemma_inverse_root(lg: nat)
    requires
        lg <= goldilocks::TWO_ADICITY,
    ensures
        is_root(root_of_unity(lg), lg),
        modular::cong(root_of_unity(lg) * inverse_root(lg), 1),
{
    let w = root_of_unity(lg);
    lemma_root_of_unity(lg);
    lemma_pow2_pos(lg);
    lemma_root_order(w, lg);
    lemma_pow_adds(w, 1, (pow2(lg) - 1) as nat);
    lemma_pow1(w);
}

/// The roots of different lengths fit together: each is the square of the next, and the
/// last is the generator of the subgroup of order `2^32`.
pub proof fn lemma_roots_fit(lg: nat)
    requires
        lg < 32,
    ensures
        root_of_unity(lg) == (root_of_unity(lg + 1) * root_of_unity(lg + 1))
            % 18446744069414584321,
        root_of_unity(32) == 7277203076849721926,
        root_of_unity(1) == 18446744069414584320,
        root_of_unity(0) == 1,
{
    let g = goldilocks::POWER_OF_TWO_GENERATOR as int;
    let e = pow2((31 - lg) as nat);
    let a = pow(g, e);
    lemma2_to64();
    lemma_pow2_unfold((32 - lg) as nat);
    lemma_pow_adds(g, e, e);
    modular::lemma_cong_mod(a);
    modular::lemma_cong_mul(root_of_unity(lg + 1), a, root_of_unity(lg + 1), a);
    lemma_pow1(g);
    lemma_generator_order();
    lemma_pow2_unfold(32);
    lemma_pow_adds(g, pow2(31), pow2(31));
    modular::lemma_cong_mul(pow(g, pow2(31)), -1, pow(g, pow2(31)), -1);
}

/// Power `k` of the root of order `2^lg` is power `k * 2^(32 - lg)` of the generator.
pub proof fn lemma_root_power(lg: nat, k: nat)
    requires
        lg <= 32,
    ensures
        (pow(root_of_unity(lg), k) - pow(7277203076849721926, k * pow2((32 - lg) as nat)))
            % 18446744069414584321 == 0,
{
    let g = goldilocks::POWER_OF_TWO_GENERATOR as int;
    let e = pow2((32 - lg) as nat);
    modular::lemma_cong_mod(pow(g, e));
    modular::lemma_cong_pow(root_of_unity(lg), pow(g, e), k);
    lemma_pow_multiplies(g, e, k);
    lemma_mul_is_commutative(e as int, k as int);
    modular::lemma_cong_meaning(pow(root_of_unity(lg), k), pow(g, k * e));
}

} // verus!
