//! Polynomials over the integers, read modulo the Goldilocks prime.
use vstd::prelude::*;
use vstd::arithmetic::mul::*;
use vstd::arithmetic::power::*;
use crate::goldilocks::GoldilocksField;
use crate::modular;

verus! {

/// A polynomial by its coefficients, the constant term first.
#[derive(Clone, Debug)]
pub struct PolynomialCoeffs {
    pub coeffs: Vec<GoldilocksField>,
}

/// A polynomial by its values at the powers of a root of unity.
#[derive(Clone, Debug)]
pub struct PolynomialValues {
    pub values: Vec<GoldilocksField>,
}

impl PolynomialCoeffs {
    /// The polynomial with the given coefficients.
    pub fn new(coeffs: Vec<GoldilocksField>) -> (r: Self)
        ensures
            r.coeffs == coeffs,
    {
        PolynomialCoeffs { coeffs }
    }

    /// The number of coefficients, leading zeros included.
    pub fn len(&self) -> (r: usize)
        ensures
            r == self.coeffs@.len(),
    {
        self.coeffs.len()
    }
}

impl PolynomialValues {
    /// The polynomial with the given values.
    pub fn new(values: Vec<GoldilocksField>) -> (r: Self)
        ensures
            r.values == values,
    {
        PolynomialValues { values }
    }

    /// The number of values.
    pub fn len(&self) -> (r: usize)
        ensures
            r == self.values@.len(),
    {
        self.values.len()
    }
}

/// The remainders that a sequence of field elements stands for.
pub open spec fn vals(s: Seq<GoldilocksField>) -> Seq<int> {
    s.map_values(|x: GoldilocksField| x.val())
}

/// The value at `x` of the polynomial with coefficients `c`.
pub open spec fn eval(c: Seq<int>, x: int) -> int
    decreases c.len(),
{
    if c.len() == 0 {
        0
    } else {
        c[0] + x * eval(c.drop_first(), x)
    }
}

/// `v` holds the values of the polynomial `c` at `shift`, `shift * w`, `shift * w^2`, ...
pub open spec fn is_evaluation(c: Seq<int>, v: Seq<int>, shift: int, w: int) -> bool {
    forall|k: int|
        0 <= k < v.len() ==> modular::cong(#[trigger] v[k], eval(c, shift * pow(w, k as nat)))
}

/// Both sequences stand for the same field elements.
pub open spec fn seq_cong(a: Seq<int>, b: Seq<int>) -> bool {
    &&& a.len() == b.len()
    &&& forall|k: int| 0 <= k < a.len() ==> modular::cong(#[trigger] a[k], b[k])
}

/// The coefficients at even places.
pub open spec fn evens(c: Seq<int>) -> Seq<int> {
    Seq::new(c.len() / 2, |k: int| c[2 * k])
}

/// The coefficients at odd places.
pub open spec fn odds(c: Seq<int>) -> Seq<int> {
    Seq::new(c.len() / 2, |k: int| c[2 * k + 1])
}

/// Coefficient `j` times `s^j`.
pub open spec fn twist(c: Seq<int>, s: int) -> Seq<int> {
    Seq::new(c.len(), |k: int| c[k] * pow(s, k as nat))
}

/// `c` with `n` zeros behind it.
pub open spec fn zero_extended(c: Seq<int>, n: nat) -> Seq<int> {
    c + Seq::new(n, |k: int| 0int)
}

/// Evaluation respects congruence.
pub proof fn lemma_eval_cong(c: Seq<int>, d: Seq<int>, x: int, y: int)
    requires
        seq_cong(c, d),
        modular::cong(x, y),
    ensures
        modular::cong(eval(c, x), eval(d, y)),
    decreases c.len(),
{
    if c.len() > 0 {
        let c1 = c.drop_first();
        let d1 = d.drop_first();
        assert forall|k: int| 0 <= k < c1.len() implies modular::cong(#[trigger] c1[k], d1[k]) by {
            assert(c1[k] == c[k + 1]);
        }
        lemma_eval_cong(c1, d1, x, y);
        modular::lemma_cong_mul(x, y, eval(c1, x), eval(d1, y));
        assert(modular::cong(c[0], d[0]));
        modular::lemma_cong_add(c[0], d[0], x * eval(c1, x), y * eval(d1, y));
    }
}

/// Evaluation of `a * c + b * d`, term by term.
pub proof fn lemma_eval_linear(c: Seq<int>, d: Seq<int>, e: Seq<int>, a: int, b: int, x: int)
    requires
        c.len() == d.len(),
        e.len() == c.len(),
        forall|k: int| 0 <= k < e.len() ==> #[trigger] e[k] == a * c[k] + b * d[k],
    ensures
        eval(e, x) == a * eval(c, x) + b * eval(d, x),
    decreases c.len(),
{
    if c.len() > 0 {
        let c1 = c.drop_first();
        let d1 = d.drop_first();
        let e1 = e.drop_first();
        assert forall|k: int| 0 <= k < e1.len() implies #[trigger] e1[k] == a * c1[k] + b
            * d1[k] by {
            assert(e1[k] == e[k + 1]);
        }
        lemma_eval_linear(c1, d1, e1, a, b, x);
        let u = eval(c1, x);
        let v = eval(d1, x);
        assert(e[0] == a * c[0] + b * d[0]);
        assert(x * (a * u + b * v) == a * (x * u) + b * (x * v)) by (nonlinear_arith);
        assert(a * (c[0] + x * u) == a * c[0] + a * (x * u)) by (nonlinear_arith);
        assert(b * (d[0] + x * v) == b * d[0] + b * (x * v)) by (nonlinear_arith);
    } else {
        assert(a * 0 + b * 0 == 0) by (nonlinear_arith);
    }
}

/// Evaluation of a concatenation.
pub proof fn lemma_eval_concat(a: Seq<int>, b: Seq<int>, x: int)
    ensures
        eval(a + b, x) == eval(a, x) + pow(x, a.len()) * eval(b, x),
    decreases a.len(),
{
    reveal(pow);
    if a.len() == 0 {
        assert(a + b =~= b);
        lemma_mul_basics(eval(b, x));
    } else {
        let a1 = a.drop_first();
        lemma_eval_concat(a1, b, x);
        assert((a + b).drop_first() =~= a1 + b);
        let q = pow(x, a1.len());
        let r = eval(b, x);
        assert(pow(x, a.len()) == x * q);
        assert(x * (eval(a1, x) + q * r) == x * eval(a1, x) + (x * q) * r) by (nonlinear_arith);
    }
}

/// Evaluation of zeros.
pub proof fn lemma_eval_zeros(n: nat, x: int)
    ensures
        eval(Seq::new(n, |k: int| 0int), x) == 0,
    decreases n,
{
    let z = Seq::new(n, |k: int| 0int);
    if n > 0 {
        lemma_eval_zeros((n - 1) as nat, x);
        assert(z.drop_first() =~= Seq::new((n - 1) as nat, |k: int| 0int));
        lemma_mul_basics(x);
    }
}

/// Zeros behind the coefficients change no value.
pub proof fn lemma_eval_zero_extended(c: Seq<int>, n: nat, x: int)
    ensures
        eval(zero_extended(c, n), x) == eval(c, x),
{
    lemma_eval_concat(c, Seq::new(n, |k: int| 0int), x);
    lemma_eval_zeros(n, x);
    lemma_mul_basics(pow(x, c.len()));
}

/// Twisting the coefficients by `s` scales the point by `s`.
pub proof fn lemma_eval_twist(c: Seq<int>, s: int, x: int)
    ensures
        eval(twist(c, s), x) == eval(c, s * x),
    decreases c.len(),
{
    if c.len() > 0 {
        reveal(pow);
        let c1 = c.drop_first();
        let t = twist(c, s);
        let t1 = t.drop_first();
        lemma_eval_twist(c1, s, x);
        // t1 is s times the twist of the remaining coefficients.
        let u = twist(c1, s);
        assert forall|k: int| 0 <= k < t1.len() implies #[trigger] t1[k] == s * u[k] + 0
            * u[k] by {
            assert(t1[k] == c[k + 1] * pow(s, (k + 1) as nat));
            assert(pow(s, (k + 1) as nat) == s * pow(s, k as nat));
            assert(c[k + 1] * (s * pow(s, k as nat)) == s * (c[k + 1] * pow(s, k as nat)))
                by (nonlinear_arith);
        }
        lemma_eval_linear(u, u, t1, s, 0, x);
        assert(t[0] == c[0]) by {
            assert(pow(s, 0) == 1);
            lemma_mul_basics(c[0]);
        }
        let v = eval(c1, s * x);
        assert(x * (s * v + 0 * v) == (s * x) * v) by (nonlinear_arith);
    }
}

/// Splitting into even and odd coefficients.
pub proof fn lemma_eval_even_odd(c: Seq<int>, x: int)
    requires
        c.len() % 2 == 0,
    ensures
        eval(c, x) == eval(evens(c), x * x) + x * eval(odds(c), x * x),
    decreases c.len(),
{
    if c.len() > 0 {
        let c1 = c.drop_first();
        let c2 = c1.drop_first();
        lemma_eval_even_odd(c2, x);
        assert(evens(c).drop_first() =~= evens(c2));
        assert(odds(c).drop_first() =~= odds(c2));
        let y = x * x;
        let u = eval(evens(c2), y);
        let v = eval(odds(c2), y);
        assert(eval(c1, x) == c[1] + x * eval(c2, x));
        assert(eval(c, x) == c[0] + x * (c[1] + x * (u + x * v)));
        assert(eval(evens(c), y) == c[0] + y * u);
        assert(eval(odds(c), y) == c[1] + y * v);
        assert(x * (c[1] + x * (u + x * v)) == (x * x) * u + x * (c[1] + (x * x) * v))
            by (nonlinear_arith);
    } else {
        assert(evens(c).len() == 0);
        assert(odds(c).len() == 0);
        lemma_mul_basics(x);
    }
}

} // verus!
