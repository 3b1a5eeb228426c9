//! The Goldilocks field.
use vstd::prelude::*;
use vstd::arithmetic::mul::*;
use vstd::arithmetic::power2::*;
use crate::modular;

verus! {

/// The order of the field, `2^64 - 2^32 + 1`.
pub const ORDER: u64 = 0xFFFF_FFFF_0000_0001;

/// The multiplicative group has a subgroup of order `2^TWO_ADICITY`.
pub const TWO_ADICITY: usize = 32;

/// Generator of the subgroup of order `2^TWO_ADICITY`.
pub const POWER_OF_TWO_GENERATOR: u64 = 7277203076849721926;

/// The inverse of two, `(ORDER + 1) / 2`.
pub const HALF: u64 = 0x7FFF_FFFF_8000_0001;

/// Generator of the multiplicative group.
pub const MULTIPLICATIVE_GROUP_GENERATOR: u64 = 14293326489335486720;

/// A prime field whose elements have a canonical `u64` form.
///
/// The specification functions say what the methods return. An implementor outside of
/// verified code may leave them out. It must then be deterministic, so that they can stand
/// for what its methods return on equal arguments.
pub trait RichField: Copy {
    /// The order of the field.
    closed spec fn spec_order() -> u64 {
        arbitrary()
    }

    /// The canonical form of the element, below the order.
    closed spec fn spec_canonical(self) -> u64 {
        arbitrary()
    }

    /// The element with the given canonical form.
    closed spec fn spec_from_canonical(n: u64) -> Self {
        arbitrary()
    }

    /// The canonical form of the element, below the order.
    fn to_canonical_u64(&self) -> (r: u64)
        ensures
            r == self.spec_canonical(),
            r < Self::spec_order(),
    ;

    /// The element with canonical form `n`, where `n` is below the order.
    fn from_canonical_u64(n: u64) -> (r: Self)
        ensures
            r == Self::spec_from_canonical(n),
            n < Self::spec_order() ==> r.spec_canonical() == n,
    ;
}

/// The elements in canonical form.
pub open spec fn canonical_words<F: RichField>(s: Seq<F>) -> Seq<u64> {
    s.map_values(|x: F| x.spec_canonical())
}

/// The elements in canonical form.
pub fn to_canonical_words<F: RichField>(s: &[F]) -> (r: Vec<u64>)
    ensures
        r@ == canonical_words(s@),
        r@.len() == s@.len(),
        forall|i: int| 0 <= i < r@.len() ==> #[trigger] r@[i] == s@[i].spec_canonical(),
        forall|i: int| 0 <= i < r@.len() ==> (#[trigger] r@[i]) < F::spec_order(),
{
    let mut r: Vec<u64> = Vec::new();
    let mut i: usize = 0;
    while i < s.len()
        invariant
            i <= s@.len(),
            r@.len() == i,
            forall|k: int| 0 <= k < i ==> #[trigger] r@[k] == s@[k].spec_canonical(),
            forall|k: int| 0 <= k < i ==> (#[trigger] r@[k]) < F::spec_order(),
        decreases s@.len() - i,
    {
        r.push(s[i].to_canonical_u64());
        i = i + 1;
    }
    assert(r@ =~= canonical_words(s@));
    r
}

/// A field element. Any `u64` stands for its remainder modulo the order.
#[derive(Copy, Clone, Debug)]
pub struct GoldilocksField(pub u64);

impl GoldilocksField {
    /// The remainder that the element stands for.
    pub open spec fn val(self) -> int {
        self.0 as int % modular::prime()
    }

    /// The additive identity.
    pub fn zero() -> (r: Self)
        ensures
            r.0 == 0,
            r.val() == 0,
    {
        GoldilocksField(0)
    }

    /// The multiplicative identity.
    pub fn one() -> (r: Self)
        ensures
            r.0 == 1,
            r.val() == 1,
    {
        GoldilocksField(1)
    }

    /// Representative of the coset on which low-degree extensions are evaluated.
    pub fn coset_shift() -> (r: Self)
        ensures
            r.0 == MULTIPLICATIVE_GROUP_GENERATOR,
            r.val() == MULTIPLICATIVE_GROUP_GENERATOR,
    {
        GoldilocksField(MULTIPLICATIVE_GROUP_GENERATOR)
    }

    /// The inverse of `2^exp`.
    pub fn inverse_2exp(exp: usize) -> (r: Self)
        ensures
            modular::cong(r.val() * pow2(exp as nat), 1),
    {
        let half = GoldilocksField(HALF);
        let mut r = GoldilocksField::one();
        let mut i: usize = 0;
        proof {
            lemma2_to64();
        }
        while i < exp
            invariant
                i <= exp,
                half.0 == HALF,
                modular::cong(r.val() * pow2(i as nat), 1),
            decreases exp - i,
        {
            let ghost before = r;
            r = r * half;
            proof {
                lemma_ops(before, half);
                lemma_pow2_unfold((i + 1) as nat);
                let e = pow2(i as nat) as int;
                let b = before.val();
                modular::lemma_cong_mul(r.val(), b * half.val(), 2 * e, 2 * e);
                assert((b * half.val()) * (2 * e) == (2 * half.val()) * (b * e))
                    by (nonlinear_arith);
                modular::lemma_cong_mul(2 * half.val(), 1, b * e, b * e);
            }
            i = i + 1;
        }
        r
    }
}

/// What `a + b` returns.
pub open spec fn field_sum(a: GoldilocksField, b: GoldilocksField) -> GoldilocksField {
    GoldilocksField(((a.0 + b.0) % modular::prime()) as u64)
}

/// What `a - b` returns.
pub open spec fn field_difference(a: GoldilocksField, b: GoldilocksField) -> GoldilocksField {
    GoldilocksField(((a.0 - b.0) % modular::prime()) as u64)
}

/// What `a * b` returns.
pub open spec fn field_product(a: GoldilocksField, b: GoldilocksField) -> GoldilocksField {
    GoldilocksField(((a.0 * b.0) % modular::prime()) as u64)
}

impl RichField for GoldilocksField {
    open spec fn spec_order() -> u64 {
        ORDER
    }

    open spec fn spec_canonical(self) -> u64 {
        self.val() as u64
    }

    open spec fn spec_from_canonical(n: u64) -> Self {
        GoldilocksField(n)
    }

    fn to_canonical_u64(&self) -> (r: u64)
        ensures
            r == self.val(),
    {
        self.0 % ORDER
    }

    fn from_canonical_u64(n: u64) -> (r: Self) {
        GoldilocksField(n)
    }
}

impl PartialEq for GoldilocksField {
    fn eq(&self, other: &Self) -> (r: bool) {
        self.0 % ORDER == other.0 % ORDER
    }
}

impl vstd::std_specs::cmp::PartialEqSpecImpl for GoldilocksField {
    open spec fn obeys_eq_spec() -> bool {
        true
    }

    open spec fn eq_spec(&self, other: &Self) -> bool {
        self.val() == other.val()
    }
}

impl Eq for GoldilocksField {

}

impl std::ops::Add for GoldilocksField {
    type Output = Self;

    fn add(self, rhs: Self) -> (r: Self) {
        let sum: u128 = self.0 as u128 + rhs.0 as u128;
        GoldilocksField((sum % (ORDER as u128)) as u64)
    }
}

impl vstd::std_specs::ops::AddSpecImpl for GoldilocksField {
    open spec fn obeys_add_spec() -> bool {
        true
    }

    open spec fn add_req(self, rhs: Self) -> bool {
        true
    }

    open spec fn add_spec(self, rhs: Self) -> Self {
        field_sum(self, rhs)
    }
}

impl std::ops::Sub for GoldilocksField {
    type Output = Self;

    fn sub(self, rhs: Self) -> (r: Self) {
        let diff: u128 = self.0 as u128 + 2 * (ORDER as u128) - rhs.0 as u128;
        proof {
            modular::lemma_cong_multiple(self.0 - rhs.0, 2);
        }
        GoldilocksField((diff % (ORDER as u128)) as u64)
    }
}

impl vstd::std_specs::ops::SubSpecImpl for GoldilocksField {
    open spec fn obeys_sub_spec() -> bool {
        true
    }

    open spec fn sub_req(self, rhs: Self) -> bool {
        true
    }

    open spec fn sub_spec(self, rhs: Self) -> Self {
        field_difference(self, rhs)
    }
}

impl std::ops::Mul for GoldilocksField {
    type Output = Self;

    fn mul(self, rhs: Self) -> (r: Self) {
        proof {
            lemma_mul_upper_bound(
                self.0 as int,
                0xFFFF_FFFF_FFFF_FFFF,
                rhs.0 as int,
                0xFFFF_FFFF_FFFF_FFFF,
            );
        }
        let product: u128 = (self.0 as u128) * (rhs.0 as u128);
        GoldilocksField((product % (ORDER as u128)) as u64)
    }
}

impl vstd::std_specs::ops::MulSpecImpl for GoldilocksField {
    open spec fn obeys_mul_spec() -> bool {
        true
    }

    open spec fn mul_req(self, rhs: Self) -> bool {
        true
    }

    open spec fn mul_spec(self, rhs: Self) -> Self {
        field_product(self, rhs)
    }
}

/// What the operators do to the remainders that their operands stand for.
pub proof fn lemma_ops(a: GoldilocksField, b: GoldilocksField)
    ensures
        0 <= a.val() < modular::prime(),
        modular::cong(field_sum(a, b).val(), a.val() + b.val()),
        modular::cong(field_difference(a, b).val(), a.val() - b.val()),
        modular::cong(field_product(a, b).val(), a.val() * b.val()),
{
    modular::lemma_cong_mod(a.0 as int);
    modular::lemma_cong_mod(b.0 as int);
    modular::lemma_cong_mod(a.0 + b.0);
    modular::lemma_cong_mod(a.0 - b.0);
    modular::lemma_cong_mod(a.0 * b.0);
    modular::lemma_cong_mod(field_sum(a, b).0 as int);
    modular::lemma_cong_mod(field_difference(a, b).0 as int);
    modular::lemma_cong_mod(field_product(a, b).0 as int);
    modular::lemma_cong_add(a.val(), a.0 as int, b.val(), b.0 as int);
    modular::lemma_cong_sub(a.val(), a.0 as int, b.val(), b.0 as int);
    modular::lemma_cong_mul(a.val(), a.0 as int, b.val(), b.0 as int);
}

/// An element stands for the remainder of its word modulo `2^64 - 2^32 + 1`, which is its
/// canonical form. Elements are equal where the difference of their words is a multiple.
pub proof fn lemma_element_meaning(a: GoldilocksField, b: GoldilocksField)
    ensures
        a.val() == a.0 as int % 18446744069414584321,
        a.spec_canonical() == a.0 as int % 18446744069414584321,
        a.spec_canonical() < GoldilocksField::spec_order(),
        GoldilocksField::spec_order() == 18446744069414584321,
        a.val() == b.val() <==> (a.0 - b.0) % 18446744069414584321 == 0,
        forall|n: u64| (#[trigger] GoldilocksField::spec_from_canonical(n)).0 == n,
{
    modular::lemma_cong_meaning(a.0 as int, b.0 as int);
}

/// The operators compute sums, differences and products modulo `2^64 - 2^32 + 1`.
pub proof fn lemma_ops_meaning(a: GoldilocksField, b: GoldilocksField)
    ensures
        field_sum(a, b).0 == (a.0 + b.0) % 18446744069414584321,
        field_difference(a, b).0 == (a.0 - b.0) % 18446744069414584321,
        field_product(a, b).0 == (a.0 * b.0) % 18446744069414584321,
{
}

/// Word `i` is the canonical form of element `i`.
pub proof fn lemma_canonical_words<F: RichField>(s: Seq<F>)
    ensures
        canonical_words(s).len() == s.len(),
        forall|i: int|
            0 <= i < s.len() ==> #[trigger] canonical_words(s)[i] == s[i].spec_canonical(),
{
}

/// The canonical words of two sequences in a row are those of each, in a row.
pub proof fn lemma_canonical_words_concat<F: RichField>(a: Seq<F>, b: Seq<F>)
    ensures
        canonical_words(a + b) == canonical_words(a) + canonical_words(b),
        canonical_words(a).len() == a.len(),
{
    assert(canonical_words(a + b) =~= canonical_words(a) + canonical_words(b));
}

/// What the operators mean in specifications is what is computed modulo `2^64 - 2^32 + 1`.
pub proof fn lemma_operators(a: GoldilocksField, b: GoldilocksField)
    ensures
        vstd::std_specs::cmp::PartialEqSpec::eq_spec(&a, &b) <==> (a.0 - b.0)
            % 18446744069414584321 == 0,
        vstd::std_specs::ops::AddSpec::add_spec(a, b).0 == (a.0 + b.0) % 18446744069414584321,
        vstd::std_specs::ops::SubSpec::sub_spec(a, b).0 == (a.0 - b.0) % 18446744069414584321,
        vstd::std_specs::ops::MulSpec::mul_spec(a, b).0 == (a.0 * b.0) % 18446744069414584321,
{
    lemma_element_meaning(a, b);
    lemma_ops_meaning(a, b);
}

} // verus!
