//! Transforms on the host: evaluation at the powers of a root of unity, its inverse,
//! and evaluation on a coset.
use vstd::prelude::*;
use vstd::arithmetic::div_mod::*;
use vstd::arithmetic::mul::*;
use vstd::arithmetic::power::*;
use vstd::arithmetic::power2::*;
use crate::bits;
use crate::goldilocks;
use crate::goldilocks::GoldilocksField;
use crate::modular;
use crate::polynomial;
use crate::polynomial::{PolynomialCoeffs, PolynomialValues};
use crate::roots;

verus! {

/// A root of unity of order `n` exists, for a two-power `n`.
pub open spec fn is_transform_len(n: nat) -> bool {
    bits::is_power_of_two(n) && bits::log2(n) <= goldilocks::TWO_ADICITY
}

/// `values` are the values of the polynomial `coeffs` at the powers of the root of
/// unity whose order is their number, each multiplied by `shift`.
pub open spec fn are_values_on_coset(
    coeffs: Seq<GoldilocksField>,
    values: Seq<GoldilocksField>,
    shift: int,
) -> bool {
    polynomial::is_evaluation(
        polynomial::vals(coeffs),
        polynomial::vals(values),
        shift,
        roots::root_of_unity(bits::log2(values.len())),
    )
}

/// `values` are the values of the polynomial `coeffs` at the powers of the root of
/// unity whose order is their number.
pub open spec fn are_values(
    coeffs: Seq<GoldilocksField>,
    values: Seq<GoldilocksField>,
) -> bool {
    &&& values.len() == coeffs.len()
    &&& are_values_on_coset(coeffs, values, 1)
}

/// Two sequences hold the same field elements.
pub open spec fn same_elements(a: Seq<GoldilocksField>, b: Seq<GoldilocksField>) -> bool {
    polynomial::vals(a) == polynomial::vals(b)
}

/// Whether a transform of length `n` exists.
pub fn check_transform_len(n: usize) -> (r: bool)
    ensures
        r == is_transform_len(n as nat),
{
    bits::check_power_of_two(n) && bits::log2_strict(n) <= goldilocks::TWO_ADICITY
}

/// The root of unity of order `2^n_log`.
pub fn primitive_root_of_unity(n_log: usize) -> (r: GoldilocksField)
    requires
        n_log <= goldilocks::TWO_ADICITY,
    ensures
        r.val() == roots::root_of_unity(n_log as nat),
        roots::is_root(r.val(), n_log as nat),
        r.val() == pow(7277203076849721926, pow2((32 - n_log) as nat)) % 18446744069414584321,
{
    let ghost g = goldilocks::POWER_OF_TWO_GENERATOR as int;
    let mut root = GoldilocksField(goldilocks::POWER_OF_TWO_GENERATOR);
    let mut i: usize = 0;
    let steps: usize = goldilocks::TWO_ADICITY - n_log;
    proof {
        lemma2_to64();
        lemma_pow1(g);
    }
    while i < steps
        invariant
            i <= steps,
            g == goldilocks::POWER_OF_TWO_GENERATOR,
            root.val() == pow(g, pow2(i as nat)) % modular::prime(),
        decreases steps - i,
    {
        let ghost before = root;
        root = root * root;
        proof {
            goldilocks::lemma_ops(before, before);
            let a = pow(g, pow2(i as nat));
            lemma_pow2_unfold((i + 1) as nat);
            lemma_pow_adds(g, pow2(i as nat), pow2(i as nat));
            modular::lemma_cong_mod(a);
            modular::lemma_cong_mul(before.val(), a, before.val(), a);
        }
        i = i + 1;
    }
    proof {
        roots::lemma_root_of_unity(n_log as nat);
    }
    root
}

/// One butterfly: `x` stands for `w^k`, and `e` and `o` for the values of the even and
/// the odd half at the `k`-th power of the squared root.
proof fn lemma_butterfly_step(
    cv: Seq<int>,
    w: GoldilocksField,
    w2: GoldilocksField,
    x: GoldilocksField,
    e: GoldilocksField,
    o: GoldilocksField,
    lg: nat,
    k: nat,
)
    requires
        lg > 0,
        cv.len() == pow2(lg),
        roots::is_root(w.val(), lg),
        modular::cong(w2.val(), w.val() * w.val()),
        modular::cong(x.val(), pow(w.val(), k)),
        modular::cong(e.val(), polynomial::eval(polynomial::evens(cv), 1 * pow(w2.val(), k))),
        modular::cong(o.val(), polynomial::eval(polynomial::odds(cv), 1 * pow(w2.val(), k))),
    ensures
        modular::cong(
            goldilocks::field_sum(e, goldilocks::field_product(x, o)).val(),
            polynomial::eval(cv, pow(w.val(), k)),
        ),
        modular::cong(
            goldilocks::field_difference(e, goldilocks::field_product(x, o)).val(),
            polynomial::eval(cv, pow(w.val(), k + pow2((lg - 1) as nat))),
        ),
{
    let q = pow(w.val(), k);
    let ww = w.val() * w.val();
    let ev = polynomial::evens(cv);
    let od = polynomial::odds(cv);
    let ek = polynomial::eval(ev, pow(ww, k));
    let ok = polynomial::eval(od, pow(ww, k));
    let t = goldilocks::field_product(x, o);
    lemma_mul_basics(pow(w2.val(), k));
    modular::lemma_cong_pow(w2.val(), ww, k);
    polynomial::lemma_eval_cong(ev, ev, pow(w2.val(), k), pow(ww, k));
    polynomial::lemma_eval_cong(od, od, pow(w2.val(), k), pow(ww, k));
    goldilocks::lemma_ops(x, o);
    goldilocks::lemma_ops(e, t);
    modular::lemma_cong_mul(x.val(), q, o.val(), ok);
    modular::lemma_cong_add(e.val(), ek, t.val(), q * ok);
    modular::lemma_cong_sub(e.val(), ek, t.val(), q * ok);
    roots::lemma_butterfly(cv, w.val(), lg, k);
}

/// The values of `c` at the powers of `w`, a root of order `2^lg_n`.
fn fft_recursive(c: &Vec<GoldilocksField>, w: GoldilocksField, lg_n: usize) -> (r: Vec<
    GoldilocksField,
>)
    requires
        c@.len() == pow2(lg_n as nat),
        roots::is_root(w.val(), lg_n as nat),
    ensures
        r@.len() == c@.len(),
        polynomial::is_evaluation(polynomial::vals(c@), polynomial::vals(r@), 1, w.val()),
    decreases lg_n,
{
    let ghost cv = polynomial::vals(c@);
    let n: usize = c.len();
    if lg_n == 0 {
        let mut r: Vec<GoldilocksField> = Vec::new();
        proof {
            lemma2_to64();
        }
        r.push(c[0]);
        proof {
            lemma_pow0(w.val());
            reveal_with_fuel(polynomial::eval, 2);
            assert(cv.drop_first().len() == 0);
            assert(polynomial::vals(r@)[0] == cv[0]);
        }
        return r;
    }
    proof {
        lemma_pow2_unfold(lg_n as nat);
    }
    let half: usize = n / 2;
    let mut even: Vec<GoldilocksField> = Vec::new();
    let mut odd: Vec<GoldilocksField> = Vec::new();
    let mut i: usize = 0;
    while i < half
        invariant
            i <= half,
            n == c@.len(),
            n == 2 * half,
            even@.len() == i,
            odd@.len() == i,
            forall|k: int| 0 <= k < i ==> #[trigger] even@[k] == c@[2 * k],
            forall|k: int| 0 <= k < i ==> #[trigger] odd@[k] == c@[2 * k + 1],
        decreases half - i,
    {
        even.push(c[2 * i]);
        odd.push(c[2 * i + 1]);
        i = i + 1;
    }
    let w2 = w * w;
    proof {
        goldilocks::lemma_ops(w, w);
        roots::lemma_root_square(w.val(), lg_n as nat);
        roots::lemma_root_cong(w.val() * w.val(), w2.val(), (lg_n - 1) as nat);
        assert(polynomial::vals(even@) =~= polynomial::evens(cv));
        assert(polynomial::vals(odd@) =~= polynomial::odds(cv));
    }
    let e = fft_recursive(&even, w2, lg_n - 1);
    let o = fft_recursive(&odd, w2, lg_n - 1);

    // Butterflies: the first half of the values, then the second.
    let mut low: Vec<GoldilocksField> = Vec::new();
    let mut high: Vec<GoldilocksField> = Vec::new();
    let mut x = GoldilocksField::one();
    let mut k: usize = 0;
    proof {
        lemma_pow0(w.val());
    }
    while k < half
        invariant
            k <= half,
            lg_n > 0,
            n == 2 * half,
            n == pow2(lg_n as nat),
            half == pow2((lg_n - 1) as nat),
            cv == polynomial::vals(c@),
            c@.len() == n,
            e@.len() == half,
            o@.len() == half,
            roots::is_root(w.val(), lg_n as nat),
            modular::cong(w2.val(), w.val() * w.val()),
            polynomial::is_evaluation(
                polynomial::evens(cv),
                polynomial::vals(e@),
                1,
                w2.val(),
            ),
            polynomial::is_evaluation(polynomial::odds(cv), polynomial::vals(o@), 1, w2.val()),
            modular::cong(x.val(), pow(w.val(), k as nat)),
            low@.len() == k,
            high@.len() == k,
            forall|j: int|
                0 <= j < k ==> modular::cong(
                    (#[trigger] low@[j]).val(),
                    polynomial::eval(cv, pow(w.val(), j as nat)),
                ),
            forall|j: int|
                0 <= j < k ==> modular::cong(
                    (#[trigger] high@[j]).val(),
                    polynomial::eval(cv, pow(w.val(), (j + half) as nat)),
                ),
        decreases half - k,
    {
        let t = x * o[k];
        let a = e[k] + t;
        let b = e[k] - t;
        proof {
            assert(polynomial::vals(e@)[k as int] == e@[k as int].val());
            assert(polynomial::vals(o@)[k as int] == o@[k as int].val());
            lemma_butterfly_step(cv, w, w2, x, e@[k as int], o@[k as int], lg_n as nat, k as nat);
        }
        low.push(a);
        high.push(b);
        let ghost before = x;
        x = x * w;
        proof {
            goldilocks::lemma_ops(before, w);
            lemma_pow_adds(w.val(), k as nat, 1);
            lemma_pow1(w.val());
            modular::lemma_cong_mul(before.val(), pow(w.val(), k as nat), w.val(), w.val());
        }
        k = k + 1;
    }
    let ghost low0 = low@;
    let ghost high0 = high@;
    low.append(&mut high);
    proof {
        let rv = polynomial::vals(low@);
        assert forall|j: int| 0 <= j < rv.len() implies modular::cong(
            #[trigger] rv[j],
            polynomial::eval(cv, 1 * pow(w.val(), j as nat)),
        ) by {
            lemma_mul_basics(pow(w.val(), j as nat));
            if j < half {
                assert(rv[j] == low0[j].val());
            } else {
                assert(rv[j] == high0[j - half].val());
            }
        }
    }
    low
}

/// The values of a polynomial at the powers of the root of unity of order `poly.len()`.
pub fn fft(poly: PolynomialCoeffs) -> (r: PolynomialValues)
    requires
        is_transform_len(poly.coeffs@.len()),
    ensures
        are_values(poly.coeffs@, r.values@),
        forall|k: int|
            0 <= k < r.values@.len() ==> ((#[trigger] r.values@[k]).0 - power_sum(
                poly.coeffs@,
                1 * pow(
                    7277203076849721926,
                    k as nat * pow2((32 - bits::log2(poly.coeffs@.len())) as nat),
                ),
                poly.coeffs@.len(),
            )) % 18446744069414584321 == 0,
{
    let lg_n: usize = bits::log2_strict(poly.coeffs.len());
    let root = primitive_root_of_unity(lg_n);
    let r = PolynomialValues::new(fft_recursive(&poly.coeffs, root, lg_n));
    proof {
        lemma_values_are_power_sums(poly.coeffs@, r.values@, 1, lg_n as nat);
    }
    r
}

/// The powers of the inverse of a root of order `2^lg`, as powers of the root.
proof fn lemma_inverse_powers(w: int, u: int, lg: nat, j: nat)
    requires
        roots::is_root(w, lg),
        modular::cong(w * u, 1),
        j <= pow2(lg),
    ensures
        modular::cong(pow(u, j), pow(w, (pow2(lg) - j) as nat)),
{
    let n = pow2(lg);
    let a = pow(w, j);
    let b = pow(u, j);
    let c = pow(w, (n - j) as nat);
    roots::lemma_root_order(w, lg);
    lemma_pow_adds(w, j, (n - j) as nat);
    modular::lemma_cong_pow(w * u, 1, j);
    lemma_pow_distributes(w, u, j);
    lemma1_pow(j);
    // a * b and a * c are both one.
    modular::lemma_cong_mul(b, b, a * c, 1);
    modular::lemma_cong_mul(a * b, 1, c, c);
    assert(b * (a * c) == (a * b) * c) by (nonlinear_arith);
    assert(b * 1 == b);
    assert(1 * c == c);
}

/// Dividing the transform with the inverse root by the length interpolates.
pub proof fn lemma_interpolates(vv: Seq<int>, rv: Seq<int>, w: int, u: int, n_inv: int, lg: nat)
    requires
        vv.len() == pow2(lg),
        rv.len() == pow2(lg),
        roots::is_root(w, lg),
        modular::cong(w * u, 1),
        modular::cong(n_inv * pow2(lg), 1),
        forall|j: int|
            0 <= j < rv.len() ==> modular::cong(
                #[trigger] rv[j],
                n_inv * polynomial::eval(vv, pow(u, j as nat)),
            ),
    ensures
        polynomial::is_evaluation(rv, vv, 1, w),
{
    let tv = roots::transform(vv, u);
    let scaled = Seq::new(tv.len(), |j: int| n_inv * tv[j] + 0 * tv[j]);
    roots::lemma_root_inverse(w, u, lg);
    lemma_mul_is_commutative(w, u);
    assert(polynomial::seq_cong(rv, scaled));
    assert forall|k: int| 0 <= k < vv.len() implies modular::cong(
        #[trigger] vv[k],
        polynomial::eval(rv, 1 * pow(w, k as nat)),
    ) by {
        let x = pow(w, k as nat);
        lemma_mul_basics(x);
        roots::lemma_transform_inverse(vv, u, w, lg, k as nat);
        polynomial::lemma_eval_cong(rv, scaled, x, x);
        polynomial::lemma_eval_linear(tv, tv, scaled, n_inv, 0, x);
        modular::lemma_cong_mul(
            n_inv,
            n_inv,
            polynomial::eval(tv, x),
            pow2(lg) * vv[k],
        );
        lemma_mul_is_associative(n_inv, pow2(lg) as int, vv[k]);
        modular::lemma_cong_mul(n_inv * pow2(lg), 1, vv[k], vv[k]);
        lemma_mul_basics(vv[k]);
    }
}

/// The polynomial with the given values at the powers of the root of unity of order
/// `poly.len()`.
pub fn ifft(poly: PolynomialValues) -> (r: PolynomialCoeffs)
    requires
        is_transform_len(poly.values@.len()),
    ensures
        are_values(r.coeffs@, poly.values@),
        forall|k: int|
            0 <= k < r.coeffs@.len() ==> ((#[trigger] poly.values@[k]).0 - power_sum(
                r.coeffs@,
                1 * pow(
                    7277203076849721926,
                    k as nat * pow2((32 - bits::log2(poly.values@.len())) as nat),
                ),
                r.coeffs@.len(),
            )) % 18446744069414584321 == 0,
{
    let n: usize = poly.values.len();
    let lg_n: usize = bits::log2_strict(n);
    let n_inv = GoldilocksField::inverse_2exp(lg_n);
    let root = primitive_root_of_unity(lg_n);
    let ghost vv = polynomial::vals(poly.values@);
    let buffer = fft_recursive(&poly.values, root, lg_n);
    let ghost w = root.val();
    let ghost u = pow(w, (n - 1) as nat);
    proof {
        lemma_pow2_pos(lg_n as nat);
        roots::lemma_root_order(w, lg_n as nat);
        lemma_pow_adds(w, 1, (n - 1) as nat);
        lemma_pow1(w);
    }
    // All values but the first in reverse order, each divided by n.
    let mut coeffs: Vec<GoldilocksField> = Vec::new();
    let mut j: usize = 0;
    while j < n
        invariant
            j <= n,
            n == pow2(lg_n as nat),
            buffer@.len() == n,
            coeffs@.len() == j,
            w == root.val(),
            vv.len() == n,
            roots::is_root(w, lg_n as nat),
            modular::cong(w * u, 1),
            polynomial::is_evaluation(vv, polynomial::vals(buffer@), 1, w),
            forall|i: int|
                0 <= i < j ==> modular::cong(
                    (#[trigger] coeffs@[i]).val(),
                    n_inv.val() * polynomial::eval(vv, pow(u, i as nat)),
                ),
        decreases n - j,
    {
        let from: usize = if j == 0 {
            0
        } else {
            n - j
        };
        let c = buffer[from] * n_inv;
        proof {
            let b = buffer@[from as int];
            goldilocks::lemma_ops(b, n_inv);
            assert(polynomial::vals(buffer@)[from as int] == b.val());
            lemma_mul_basics(pow(w, from as nat));
            if j == 0 {
                lemma_pow0(w);
                lemma_pow0(u);
            } else {
                lemma_inverse_powers(w, u, lg_n as nat, j as nat);
            }
            polynomial::lemma_eval_cong(vv, vv, pow(w, from as nat), pow(u, j as nat));
            let y = polynomial::eval(vv, pow(u, j as nat));
            modular::lemma_cong_mul(b.val(), y, n_inv.val(), n_inv.val());
            lemma_mul_is_commutative(y, n_inv.val());
        }
        coeffs.push(c);
        j = j + 1;
    }
    proof {
        lemma_interpolates(
            vv,
            polynomial::vals(coeffs@),
            w,
            u,
            n_inv.val(),
            lg_n as nat,
        );
        lemma_values_are_power_sums(coeffs@, poly.values@, 1, lg_n as nat);
    }
    PolynomialCoeffs::new(coeffs)
}

impl PolynomialCoeffs {
    /// The same polynomial with `2^rate_bits` times as many coefficients.
    pub fn lde(&self, rate_bits: usize) -> (r: Self)
        requires
            self.coeffs@.len() * pow2(rate_bits as nat) <= usize::MAX,
        ensures
            r.coeffs@.len() == self.coeffs@.len() * pow2(rate_bits as nat),
            forall|j: int|
                0 <= j < self.coeffs@.len() ==> #[trigger] r.coeffs@[j] == self.coeffs@[j],
            forall|j: int|
                self.coeffs@.len() <= j < r.coeffs@.len() ==> (#[trigger] r.coeffs@[j]).0 == 0,
    {
        let n: usize = self.coeffs.len();
        let mut out: Vec<GoldilocksField> = Vec::new();
        if n == 0 {
            proof {
                lemma_mul_basics(pow2(rate_bits as nat) as int);
            }
            return PolynomialCoeffs::new(out);
        }
        proof {
            lemma_pow2_pos(rate_bits as nat);
            assert(pow2(rate_bits as nat) <= n * pow2(rate_bits as nat)) by (nonlinear_arith)
                requires
                    n >= 1,
            ;
            assert(n <= n * pow2(rate_bits as nat)) by (nonlinear_arith)
                requires
                    n >= 1,
                    pow2(rate_bits as nat) >= 1,
            ;
        }
        let new_len: usize = n * bits::pow2_exec(rate_bits);
        let mut j: usize = 0;
        while j < new_len
            invariant
                j <= new_len,
                n == self.coeffs@.len(),
                n <= new_len,
                out@.len() == j,
                forall|i: int|
                    0 <= i < j && i < n ==> #[trigger] out@[i] == self.coeffs@[i],
                forall|i: int| n <= i < j ==> (#[trigger] out@[i]).0 == 0,
            decreases new_len - j,
        {
            if j < n {
                out.push(self.coeffs[j]);
            } else {
                out.push(GoldilocksField::zero());
            }
            j = j + 1;
        }
        PolynomialCoeffs::new(out)
    }

    /// The values of the polynomial on the coset `shift * H`, where `H` is the group of
    /// the roots of unity of order `self.len()`.
    pub fn coset_fft(&self, shift: GoldilocksField) -> (r: PolynomialValues)
        requires
            is_transform_len(self.coeffs@.len()),
        ensures
            r.values@.len() == self.coeffs@.len(),
            are_values_on_coset(self.coeffs@, r.values@, shift.val()),
            forall|k: int|
                0 <= k < r.values@.len() ==> ((#[trigger] r.values@[k]).0 - power_sum(
                    self.coeffs@,
                    shift.val() * pow(
                        7277203076849721926,
                        k as nat * pow2((32 - bits::log2(self.coeffs@.len())) as nat),
                    ),
                    self.coeffs@.len(),
                )) % 18446744069414584321 == 0,
    {
        let n: usize = self.coeffs.len();
        let ghost cv = polynomial::vals(self.coeffs@);
        let ghost s = shift.val();
        let mut modified: Vec<GoldilocksField> = Vec::new();
        let mut power = GoldilocksField::one();
        let mut j: usize = 0;
        proof {
            lemma_pow0(s);
        }
        while j < n
            invariant
                j <= n,
                n == self.coeffs@.len(),
                cv == polynomial::vals(self.coeffs@),
                s == shift.val(),
                modified@.len() == j,
                modular::cong(power.val(), pow(s, j as nat)),
                forall|i: int|
                    0 <= i < j ==> modular::cong(
                        (#[trigger] modified@[i]).val(),
                        polynomial::twist(cv, s)[i],
                    ),
            decreases n - j,
        {
            let c = power * self.coeffs[j];
            proof {
                goldilocks::lemma_ops(power, self.coeffs@[j as int]);
                modular::lemma_cong_mul(
                    power.val(),
                    pow(s, j as nat),
                    cv[j as int],
                    cv[j as int],
                );
                lemma_mul_is_commutative(pow(s, j as nat), cv[j as int]);
            }
            modified.push(c);
            let ghost before = power;
            power = power * shift;
            proof {
                goldilocks::lemma_ops(before, shift);
                lemma_pow_adds(s, j as nat, 1);
                lemma_pow1(s);
                modular::lemma_cong_mul(before.val(), pow(s, j as nat), s, s);
            }
            j = j + 1;
        }
        let ghost mv = polynomial::vals(modified@);
        let r = fft(PolynomialCoeffs::new(modified));
        proof {
            let rv = polynomial::vals(r.values@);
            let w = roots::root_of_unity(bits::log2(n as nat));
            assert(polynomial::seq_cong(mv, polynomial::twist(cv, s)));
            assert forall|k: int| 0 <= k < rv.len() implies modular::cong(
                #[trigger] rv[k],
                polynomial::eval(cv, s * pow(w, k as nat)),
            ) by {
                let x = pow(w, k as nat);
                lemma_mul_basics(x);
                polynomial::lemma_eval_cong(mv, polynomial::twist(cv, s), x, x);
                polynomial::lemma_eval_twist(cv, s, x);
            }
            lemma_values_are_power_sums(self.coeffs@, r.values@, s, bits::log2(n as nat));
        }
        r
    }
}

/// Values at the powers of a root of unity determine the coefficients: interpolating the
/// values of a polynomial recovers it.
pub proof fn lemma_values_determine_coeffs(
    c: Seq<GoldilocksField>,
    d: Seq<GoldilocksField>,
    v: Seq<GoldilocksField>,
)
    requires
        is_transform_len(v.len()),
        are_values(c, v),
        are_values(d, v),
    ensures
        same_elements(c, d),
{
    let lg = bits::log2(v.len());
    let n = pow2(lg);
    let w = roots::root_of_unity(lg);
    let u = pow(w, (n - 1) as nat);
    let cv = polynomial::vals(c);
    let dv = polynomial::vals(d);
    let vv = polynomial::vals(v);
    roots::lemma_root_of_unity(lg);
    lemma_pow2_pos(lg);
    roots::lemma_root_order(w, lg);
    lemma_pow_adds(w, 1, (n - 1) as nat);
    lemma_pow1(w);
    assert forall|j: int| 0 <= j < n implies cv[j] == dv[j] by {
        let tc = roots::transform(cv, w);
        let td = roots::transform(dv, w);
        let x = pow(u, j as nat);
        assert forall|k: int| 0 <= k < n implies modular::cong(#[trigger] tc[k], td[k]) by {
            lemma_mul_basics(pow(w, k as nat));
            assert(modular::cong(vv[k], polynomial::eval(cv, 1 * pow(w, k as nat))));
            assert(modular::cong(vv[k], polynomial::eval(dv, 1 * pow(w, k as nat))));
        }
        polynomial::lemma_eval_cong(tc, td, x, x);
        roots::lemma_transform_inverse(cv, w, u, lg, j as nat);
        roots::lemma_transform_inverse(dv, w, u, lg, j as nat);
        lemma_cancel_pow2(lg, c[j].val(), d[j].val());
        goldilocks::lemma_ops(c[j], d[j]);
        goldilocks::lemma_ops(d[j], c[j]);
        lemma_small_mod(c[j].val() as nat, modular::prime() as nat);
        lemma_small_mod(d[j].val() as nat, modular::prime() as nat);
    }
    assert(cv =~= dv);
}

/// A power of two that divides the order of the group has an inverse.
pub proof fn lemma_pow2_inverse(lg: nat) -> (inverse: int)
    requires
        lg <= goldilocks::TWO_ADICITY,
    ensures
        modular::cong(inverse * pow2(lg), 1),
{
    // 2^32 times this number is congruent to one.
    let inv: int = 0xFFFF_FFFE_0000_0002;
    lemma2_to64();
    let rest = pow2((goldilocks::TWO_ADICITY - lg) as nat) as int;
    lemma_pow2_adds((goldilocks::TWO_ADICITY - lg) as nat, lg);
    let k = inv * rest;
    assert((inv * 0x1_0000_0000) % modular::prime() == 1);
    assert(k * pow2(lg) == inv * 0x1_0000_0000) by (nonlinear_arith)
        requires
            k == inv * rest,
            rest * pow2(lg) == 0x1_0000_0000,
    ;
    k
}

/// A power of two can be cancelled.
proof fn lemma_cancel_pow2(lg: nat, a: int, b: int)
    requires
        lg <= goldilocks::TWO_ADICITY,
        modular::cong(pow2(lg) * a, pow2(lg) * b),
    ensures
        modular::cong(a, b),
{
    let k = lemma_pow2_inverse(lg);
    modular::lemma_cong_mul(k, k, pow2(lg) * a, pow2(lg) * b);
    lemma_mul_is_associative(k, pow2(lg) as int, a);
    lemma_mul_is_associative(k, pow2(lg) as int, b);
    modular::lemma_cong_mul(k * pow2(lg), 1, a, a);
    modular::lemma_cong_mul(k * pow2(lg), 1, b, b);
    lemma_mul_basics(a);
    lemma_mul_basics(b);
}

/// A polynomial has one sequence of values on a coset.
pub proof fn lemma_coset_values_determined(
    c: Seq<GoldilocksField>,
    v: Seq<GoldilocksField>,
    v2: Seq<GoldilocksField>,
    shift: int,
)
    requires
        v.len() == v2.len(),
        are_values_on_coset(c, v, shift),
        are_values_on_coset(c, v2, shift),
    ensures
        same_elements(v, v2),
{
    let vv = polynomial::vals(v);
    let vv2 = polynomial::vals(v2);
    assert forall|k: int| 0 <= k < vv.len() implies vv[k] == vv2[k] by {
        assert(modular::cong(vv[k], vv2[k]));
        goldilocks::lemma_ops(v[k], v2[k]);
        goldilocks::lemma_ops(v2[k], v[k]);
        lemma_small_mod(v[k].val() as nat, modular::prime() as nat);
        lemma_small_mod(v2[k].val() as nat, modular::prime() as nat);
    }
    assert(vv =~= vv2);
}

/// A polynomial has one sequence of values: evaluating an interpolated polynomial gives
/// back the values.
pub proof fn lemma_coeffs_determine_values(
    c: Seq<GoldilocksField>,
    v: Seq<GoldilocksField>,
    v2: Seq<GoldilocksField>,
)
    requires
        are_values(c, v),
        are_values(c, v2),
    ensures
        same_elements(v, v2),
{
    lemma_coset_values_determined(c, v, v2, 1);
}

/// The sum of the first `m` coefficients, each times the power of `x` that belongs to it.
pub open spec fn power_sum(c: Seq<GoldilocksField>, x: int, m: nat) -> int
    decreases m,
{
    if m == 0 {
        0
    } else {
        power_sum(c, x, (m - 1) as nat) + c[m - 1].0 * pow(x, (m - 1) as nat)
    }
}

/// Evaluation is the sum of the coefficients times the powers of the point.
proof fn lemma_eval_is_power_sum(c: Seq<GoldilocksField>, x: int, m: nat)
    requires
        m <= c.len(),
    ensures
        modular::cong(
            polynomial::eval(polynomial::vals(c).take(m as int), x),
            power_sum(c, x, m),
        ),
    decreases m,
{
    let cv = polynomial::vals(c);
    if m > 0 {
        let last = seq![cv[m - 1]];
        let p = pow(x, (m - 1) as nat);
        lemma_eval_is_power_sum(c, x, (m - 1) as nat);
        assert(cv.take(m as int) =~= cv.take(m - 1) + last);
        polynomial::lemma_eval_concat(cv.take(m - 1), last, x);
        reveal_with_fuel(polynomial::eval, 2);
        assert(last.drop_first().len() == 0);
        lemma_mul_basics(x);
        modular::lemma_cong_mod(c[m - 1].0 as int);
        modular::lemma_cong_mul(cv[m - 1], c[m - 1].0 as int, p, p);
        lemma_mul_is_commutative(p, cv[m - 1]);
        modular::lemma_cong_add(
            polynomial::eval(cv.take(m - 1), x),
            power_sum(c, x, (m - 1) as nat),
            p * cv[m - 1],
            c[m - 1].0 * p,
        );
    }
}

/// The values of a polynomial in plain arithmetic: value `k` is the sum of the coefficients
/// times the powers of `shift * g^(k * 2^(32 - lg))`, modulo `2^64 - 2^32 + 1`, where `g` is
/// the generator of the subgroup of order `2^32`.
pub proof fn lemma_values_are_power_sums(
    coeffs: Seq<GoldilocksField>,
    values: Seq<GoldilocksField>,
    shift: int,
    lg: nat,
)
    requires
        lg <= 32,
        values.len() == pow2(lg),
        are_values_on_coset(coeffs, values, shift),
    ensures
        forall|k: int|
            0 <= k < values.len() ==> ((#[trigger] values[k]).0 - power_sum(
                coeffs,
                shift * pow(7277203076849721926, k as nat * pow2((32 - lg) as nat)),
                coeffs.len(),
            )) % 18446744069414584321 == 0,
{
    let cv = polynomial::vals(coeffs);
    let vv = polynomial::vals(values);
    bits::lemma_log2_pow2(lg);
    assert forall|k: int| 0 <= k < values.len() implies ((#[trigger] values[k]).0 - power_sum(
        coeffs,
        shift * pow(7277203076849721926, k as nat * pow2((32 - lg) as nat)),
        coeffs.len(),
    )) % 18446744069414584321 == 0 by {
        let p = pow(roots::root_of_unity(lg), k as nat);
        let q = pow(7277203076849721926, k as nat * pow2((32 - lg) as nat));
        let s = power_sum(coeffs, shift * q, coeffs.len());
        roots::lemma_root_power(lg, k as nat);
        modular::lemma_cong_meaning(p, q);
        modular::lemma_cong_mul(shift, shift, p, q);
        polynomial::lemma_eval_cong(cv, cv, shift * p, shift * q);
        lemma_eval_is_power_sum(coeffs, shift * q, coeffs.len());
        assert(cv.take(cv.len() as int) =~= cv);
        assert(vv[k] == values[k].val());
        modular::lemma_cong_mod(values[k].0 as int);
        modular::lemma_cong_meaning(values[k].0 as int, s);
    }
}

/// A sequence of values in plain arithmetic that fits a polynomial is its values.
pub proof fn lemma_power_sums_are_values(
    coeffs: Seq<GoldilocksField>,
    values: Seq<GoldilocksField>,
    shift: int,
    lg: nat,
)
    requires
        lg <= 32,
        values.len() == pow2(lg),
        forall|k: int|
            0 <= k < values.len() ==> ((#[trigger] values[k]).0 - power_sum(
                coeffs,
                shift * pow(7277203076849721926, k as nat * pow2((32 - lg) as nat)),
                coeffs.len(),
            )) % 18446744069414584321 == 0,
    ensures
        are_values_on_coset(coeffs, values, shift),
{
    let cv = polynomial::vals(coeffs);
    let vv = polynomial::vals(values);
    let w = roots::root_of_unity(lg);
    bits::lemma_log2_pow2(lg);
    assert forall|k: int| 0 <= k < vv.len() implies modular::cong(
        #[trigger] vv[k],
        polynomial::eval(cv, shift * pow(w, k as nat)),
    ) by {
        let p = pow(w, k as nat);
        let q = pow(7277203076849721926, k as nat * pow2((32 - lg) as nat));
        let s = power_sum(coeffs, shift * q, coeffs.len());
        assert((values[k].0 - s) % 18446744069414584321 == 0);
        roots::lemma_root_power(lg, k as nat);
        modular::lemma_cong_meaning(p, q);
        modular::lemma_cong_mul(shift, shift, p, q);
        polynomial::lemma_eval_cong(cv, cv, shift * p, shift * q);
        lemma_eval_is_power_sum(coeffs, shift * q, coeffs.len());
        assert(cv.take(cv.len() as int) =~= cv);
        modular::lemma_cong_mod(values[k].0 as int);
        modular::lemma_cong_meaning(values[k].0 as int, s);
    }
}

/// Two sequences hold the same field elements where their words differ by multiples of
/// `2^64 - 2^32 + 1` only.
pub proof fn lemma_same_elements_meaning(a: Seq<GoldilocksField>, b: Seq<GoldilocksField>)
    ensures
        same_elements(a, b) <==> a.len() == b.len() && forall|i: int|
            0 <= i < a.len() ==> ((#[trigger] a[i]).0 - b[i].0) % 18446744069414584321 == 0,
{
    let av = polynomial::vals(a);
    let bv = polynomial::vals(b);
    if same_elements(a, b) {
        assert(av.len() == bv.len());
        assert forall|i: int| 0 <= i < a.len() implies ((#[trigger] a[i]).0 - b[i].0)
            % 18446744069414584321 == 0 by {
            assert(av[i] == bv[i]);
            goldilocks::lemma_element_meaning(a[i], b[i]);
        }
    }
    if a.len() == b.len() && forall|i: int|
        0 <= i < a.len() ==> ((#[trigger] a[i]).0 - b[i].0) % 18446744069414584321 == 0 {
        assert forall|i: int| 0 <= i < av.len() implies av[i] == bv[i] by {
            assert((a[i].0 - b[i].0) % 18446744069414584321 == 0);
            goldilocks::lemma_element_meaning(a[i], b[i]);
        }
        assert(av =~= bv);
    }
}

/// Transforms exist for the lengths `2^0` to `2^32`.
pub proof fn lemma_transform_lengths(n: nat)
    ensures
        is_transform_len(n) <==> exists|lg: nat| lg <= 32 && n == #[trigger] pow2(lg),
{
    bits::lemma_powers_of_two(n);
    if is_transform_len(n) {
        assert(n == pow2(bits::log2(n)));
    }
}

} // verus!
