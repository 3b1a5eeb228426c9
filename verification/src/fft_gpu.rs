//! Transforms that run on the device where that pays.
//!
//! A transform function decides where the work is done. It returns the result of the host
//! transform, or a request for the device. The matching `finish` function turns what the
//! device hands back into the result.
use vstd::prelude::*;
use vstd::arithmetic::mul::*;
use vstd::arithmetic::power::*;
use vstd::arithmetic::power2::*;
use crate::bits;
use crate::device;
use crate::fft;
use crate::goldilocks;
use crate::goldilocks::GoldilocksField;
use crate::gpu::{GpuState, InitAction, Step};
use crate::modular;
use crate::polynomial;
use crate::polynomial::{PolynomialCoeffs, PolynomialValues};
use crate::roots;
use crate::rows;

verus! {

/// Smallest transform for which the device is faster than the host: below it, moving
/// the data costs more than the device saves.
pub const MIN_GPU_SIZE: usize = 16384;

/// Smallest number of polynomials for which a batch of transforms goes to the device.
pub const MIN_GPU_BATCH: usize = 4;

/// Smallest number of polynomials for which a batch of low-degree extensions goes to the
/// device.
pub const MIN_GPU_LDE_BATCH: usize = 2;

/// Whether inputs and outputs are in natural (N) or bit-reversed (R) order.
#[derive(Copy, Clone, Debug, PartialEq, Eq, Structural)]
pub enum NTTInputOutputOrder {
    NN,
    NR,
    RN,
    RR,
}

/// The kind of transform.
#[derive(Copy, Clone, Debug, PartialEq, Eq, Structural)]
pub enum NTTType {
    Standard,
    Coset,
}

/// How the device is to run a batch of transforms.
#[derive(Copy, Clone, Debug, PartialEq, Eq, Structural)]
pub struct NTTConfig {
    /// The number of transforms.
    pub batches: u32,
    pub order: NTTInputOutputOrder,
    pub ntt_type: NTTType,
    /// Log of the factor by which the inputs are extended with zeros.
    pub extension_rate_bits: u32,
    pub are_inputs_on_device: bool,
    pub are_outputs_on_device: bool,
    /// Evaluate on the coset.
    pub with_coset: bool,
    pub is_multi_gpu: bool,
    pub salt_size: u32,
}

/// A batch of transforms of `n` elements each, in place.
#[derive(Clone, Debug)]
pub struct NttRequest {
    /// All inputs, one after the other.
    pub buffer: Vec<GoldilocksField>,
    /// The length of a transform, `2^lg_n`.
    pub n: usize,
    pub lg_n: usize,
    pub cfg: NTTConfig,
}

/// A batch of low-degree extensions.
#[derive(Clone, Debug)]
pub struct LdeRequest {
    /// All inputs, one after the other.
    pub input: Vec<GoldilocksField>,
    /// The number of elements that come back.
    pub output_len: usize,
    /// The number of elements that come back for one polynomial.
    pub output_size: usize,
    /// Log of the length of an input.
    pub lg_input: usize,
    /// Log of the length of an output.
    pub lg_output: usize,
    pub cfg: NTTConfig,
}

/// `batches` plain transforms of data on the host, in natural order.
pub open spec fn plain_config(batches: u32) -> NTTConfig {
    NTTConfig {
        batches,
        order: NTTInputOutputOrder::NN,
        ntt_type: NTTType::Standard,
        extension_rate_bits: 0,
        are_inputs_on_device: false,
        are_outputs_on_device: false,
        with_coset: false,
        is_multi_gpu: false,
        salt_size: 0,
    }
}

/// `batches` low-degree extensions by `2^rate_bits`, evaluated on the coset.
pub open spec fn coset_config(batches: u32, rate_bits: u32) -> NTTConfig {
    NTTConfig { extension_rate_bits: rate_bits, with_coset: true, ..plain_config(batches) }
}

impl NTTConfig {
    /// `batches` plain transforms of data on the host, in natural order.
    pub fn plain(batches: u32) -> (r: Self)
        ensures
            r == plain_config(batches),
    {
        NTTConfig {
            batches,
            order: NTTInputOutputOrder::NN,
            ntt_type: NTTType::Standard,
            extension_rate_bits: 0,
            are_inputs_on_device: false,
            are_outputs_on_device: false,
            with_coset: false,
            is_multi_gpu: false,
            salt_size: 0,
        }
    }
}

impl Default for NTTConfig {
    /// One plain transform.
    fn default() -> (r: Self)
        ensures
            r == plain_config(1),
    {
        NTTConfig::plain(1)
    }
}

/// Whether a transform of length `n` belongs on the device.
pub fn should_use_gpu(n: usize) -> (r: bool)
    ensures
        r == (n >= MIN_GPU_SIZE),
        r == (n >= 16384),
{
    n >= MIN_GPU_SIZE
}

/// A two-power length below `MIN_GPU_SIZE` has a transform.
proof fn lemma_small_transform_len(n: nat)
    requires
        bits::is_power_of_two(n),
        n < MIN_GPU_SIZE,
    ensures
        fft::is_transform_len(n),
{
    lemma2_to64();
    if bits::log2(n) > goldilocks::TWO_ADICITY {
        bits::lemma_pow2_monotone(32, bits::log2(n));
    }
}

/// Where `poly` is evaluated: on the host with the result, or on the device with the request.
pub open spec fn is_fft_step(
    poly: PolynomialCoeffs,
    step: Step<PolynomialValues, NttRequest>,
) -> bool {
    match step {
        Step::Host(values) => {
            &&& poly.coeffs@.len() < MIN_GPU_SIZE
            &&& fft::are_values(poly.coeffs@, values.values@)
        },
        Step::Device(request) => {
            &&& poly.coeffs@.len() >= MIN_GPU_SIZE
            &&& request.buffer@ == poly.coeffs@
            &&& request.n == poly.coeffs@.len()
            &&& request.lg_n == bits::log2(poly.coeffs@.len())
            &&& request.cfg == plain_config(1)
        },
    }
}

/// Evaluates one polynomial at the powers of the root of unity of order `poly.len()`.
pub fn fft_gpu(poly: PolynomialCoeffs) -> (r: Step<PolynomialValues, NttRequest>)
    requires
        bits::is_power_of_two(poly.coeffs@.len()),
    ensures
        is_fft_step(poly, r),
{
    let n: usize = poly.len();
    if !should_use_gpu(n) {
        proof {
            lemma_small_transform_len(n as nat);
        }
        return Step::Host(fft::fft(poly));
    }
    let lg_n: usize = bits::log2_strict(n);
    Step::Device(NttRequest { buffer: poly.coeffs, n, lg_n, cfg: NTTConfig::plain(1) })
}

/// The values that the device handed back.
pub fn finish_fft_gpu(reply: Vec<GoldilocksField>) -> (r: PolynomialValues)
    ensures
        r.values == reply,
{
    PolynomialValues::new(reply)
}

/// Where `poly` is interpolated: on the host with the result, or on the device with the
/// request.
pub open spec fn is_ifft_step(
    poly: PolynomialValues,
    step: Step<PolynomialCoeffs, NttRequest>,
) -> bool {
    match step {
        Step::Host(coeffs) => {
            &&& poly.values@.len() < MIN_GPU_SIZE
            &&& fft::are_values(coeffs.coeffs@, poly.values@)
        },
        Step::Device(request) => {
            &&& poly.values@.len() >= MIN_GPU_SIZE
            &&& request.buffer@ == poly.values@
            &&& request.n == poly.values@.len()
            &&& request.lg_n == bits::log2(poly.values@.len())
            &&& request.cfg == plain_config(1)
        },
    }
}

/// Interpolates the polynomial with the given values at the powers of the root of unity of
/// order `poly.len()`.
pub fn ifft_gpu(poly: PolynomialValues) -> (r: Step<PolynomialCoeffs, NttRequest>)
    requires
        bits::is_power_of_two(poly.values@.len()),
    ensures
        is_ifft_step(poly, r),
{
    let n: usize = poly.len();
    if !should_use_gpu(n) {
        proof {
            lemma_small_transform_len(n as nat);
        }
        return Step::Host(fft::ifft(poly));
    }
    let lg_n: usize = bits::log2_strict(n);
    Step::Device(NttRequest { buffer: poly.values, n, lg_n, cfg: NTTConfig::plain(1) })
}

/// `scaled` holds the elements of `s` divided by `2^lg_n`.
pub open spec fn is_scaled_down(
    s: Seq<GoldilocksField>,
    scaled: Seq<GoldilocksField>,
    lg_n: nat,
) -> bool {
    &&& scaled.len() == s.len()
    &&& forall|i: int|
        0 <= i < s.len() ==> modular::cong(
            (#[trigger] scaled[i]).val() * pow2(lg_n),
            s[i].val(),
        )
}

/// Divides every element by `2^lg_n`.
fn scale_down(s: &Vec<GoldilocksField>, lg_n: usize) -> (r: Vec<GoldilocksField>)
    ensures
        is_scaled_down(s@, r@, lg_n as nat),
{
    let n_inv = GoldilocksField::inverse_2exp(lg_n);
    let mut r: Vec<GoldilocksField> = Vec::new();
    let mut i: usize = 0;
    while i < s.len()
        invariant
            i <= s@.len(),
            modular::cong(n_inv.val() * pow2(lg_n as nat), 1),
            r@.len() == i,
            forall|k: int|
                0 <= k < i ==> modular::cong(
                    (#[trigger] r@[k]).val() * pow2(lg_n as nat),
                    s@[k].val(),
                ),
        decreases s@.len() - i,
    {
        let x = s[i];
        let y = x * n_inv;
        proof {
            let e = pow2(lg_n as nat) as int;
            goldilocks::lemma_ops(x, n_inv);
            modular::lemma_cong_mul(y.val(), x.val() * n_inv.val(), e, e);
            lemma_mul_is_associative(x.val(), n_inv.val(), e);
            modular::lemma_cong_mul(x.val(), x.val(), n_inv.val() * e, 1);
            lemma_mul_basics(x.val());
        }
        r.push(y);
        i = i + 1;
    }
    r
}

/// The coefficients, from the inverse transform that the device handed back. The device
/// leaves out the division by the length.
pub fn finish_ifft_gpu(reply: Vec<GoldilocksField>, lg_n: usize) -> (r: PolynomialCoeffs)
    ensures
        is_scaled_down(reply@, r.coeffs@, lg_n as nat),
{
    PolynomialCoeffs::new(scale_down(&reply, lg_n))
}

/// The coefficients of each polynomial.
pub open spec fn coeff_rows(polys: Seq<PolynomialCoeffs>) -> Seq<Seq<GoldilocksField>> {
    polys.map_values(|p: PolynomialCoeffs| p.coeffs@)
}

/// The values of each polynomial.
pub open spec fn value_rows(polys: Seq<PolynomialValues>) -> Seq<Seq<GoldilocksField>> {
    polys.map_values(|p: PolynomialValues| p.values@)
}

/// A batch of at least `least` transforms whose first has `n` elements goes to the device.
pub open spec fn is_device_batch(n: nat, count: nat, least: nat) -> bool {
    n >= MIN_GPU_SIZE && count >= least
}

/// Where a batch is evaluated: on the host with the results, or on the device with the
/// request.
pub open spec fn is_fft_batch_step(
    polys: Seq<PolynomialCoeffs>,
    step: Step<Vec<PolynomialValues>, NttRequest>,
) -> bool {
    match step {
        Step::Host(values) => {
            &&& polys.len() > 0 ==> !is_device_batch(
                polys[0].coeffs@.len(),
                polys.len(),
                MIN_GPU_BATCH as nat,
            )
            &&& values@.len() == polys.len()
            &&& forall|i: int|
                0 <= i < polys.len() ==> fft::are_values(
                    polys[i].coeffs@,
                    (#[trigger] values@[i]).values@,
                )
        },
        Step::Device(request) => {
            &&& polys.len() > 0
            &&& is_device_batch(
                polys[0].coeffs@.len(),
                polys.len(),
                MIN_GPU_BATCH as nat,
            )
            &&& request.buffer@ == rows::flattened(coeff_rows(polys))
            &&& request.n == polys[0].coeffs@.len()
            &&& request.lg_n == bits::log2(polys[0].coeffs@.len())
            &&& request.cfg == plain_config(polys.len() as u32)
        },
    }
}

/// Evaluates each polynomial at the powers of the root of unity whose order is its length.
///
/// The length of the first polynomial decides where the work is done.
pub fn fft_batch_gpu(polys: Vec<PolynomialCoeffs>) -> (r: Step<Vec<PolynomialValues>, NttRequest>)
    requires
        polys@.len() > 0 && is_device_batch(
            polys@[0].coeffs@.len(),
            polys@.len(),
            MIN_GPU_BATCH as nat,
        ) ==> bits::is_power_of_two(polys@[0].coeffs@.len()),
        polys@.len() > 0 && !is_device_batch(
            polys@[0].coeffs@.len(),
            polys@.len(),
            MIN_GPU_BATCH as nat,
        ) ==> forall|i: int|
            0 <= i < polys@.len() ==> fft::is_transform_len((#[trigger] polys@[i]).coeffs@.len()),
    ensures
        is_fft_batch_step(polys@, r),
{
    if polys.len() == 0 {
        return Step::Host(Vec::new());
    }
    let n: usize = polys[0].len();
    let num_polys: usize = polys.len();
    let mut i: usize = 0;
    if !should_use_gpu(n) || num_polys < MIN_GPU_BATCH {
        let mut values: Vec<PolynomialValues> = Vec::new();
        while i < num_polys
            invariant
                i <= num_polys,
                num_polys == polys@.len(),
                forall|k: int|
                    0 <= k < polys@.len() ==> fft::is_transform_len(
                        (#[trigger] polys@[k]).coeffs@.len(),
                    ),
                values@.len() == i,
                forall|k: int|
                    0 <= k < i ==> fft::are_values(
                        polys@[k].coeffs@,
                        (#[trigger] values@[k]).values@,
                    ),
            decreases num_polys - i,
        {
            values.push(fft::fft(PolynomialCoeffs::new(rows::copy_all(&polys[i].coeffs))));
            i = i + 1;
        }
        return Step::Host(values);
    }
    let lg_n: usize = bits::log2_strict(n);
    let mut buffer: Vec<GoldilocksField> = Vec::new();
    while i < num_polys
        invariant
            i <= num_polys,
            num_polys == polys@.len(),
            buffer@ == rows::flattened(coeff_rows(polys@).take(i as int)),
        decreases num_polys - i,
    {
        let mut copy = rows::copy_all(&polys[i].coeffs);
        proof {
            rows::lemma_flattened_step(coeff_rows(polys@), i as int);
        }
        buffer.append(&mut copy);
        i = i + 1;
    }
    assert(coeff_rows(polys@).take(i as int) =~= coeff_rows(polys@));
    Step::Device(NttRequest { buffer, n, lg_n, cfg: NTTConfig::plain(num_polys as u32) })
}

/// Cuts what the device handed back into transforms of `n` values.
pub fn finish_fft_batch_gpu(reply: Vec<GoldilocksField>, n: usize) -> (r: Vec<PolynomialValues>)
    requires
        n > 0,
    ensures
        r@.len() == rows::chunk_count(reply@.len(), n as nat),
        forall|i: int|
            0 <= i < r@.len() ==> (#[trigger] r@[i]).values@ == rows::chunk(
                reply@,
                n as nat,
                i as nat,
            ),
{
    let parts = rows::split_chunks(reply.as_slice(), n);
    let mut r: Vec<PolynomialValues> = Vec::new();
    let mut i: usize = 0;
    while i < parts.len()
        invariant
            i <= parts@.len(),
            forall|k: int|
                0 <= k < parts@.len() ==> (#[trigger] parts@[k])@ == rows::chunk(
                    reply@,
                    n as nat,
                    k as nat,
                ),
            r@.len() == i,
            forall|k: int|
                0 <= k < i ==> (#[trigger] r@[k]).values@ == rows::chunk(
                    reply@,
                    n as nat,
                    k as nat,
                ),
        decreases parts@.len() - i,
    {
        r.push(PolynomialValues::new(rows::copy_all(&parts[i])));
        i = i + 1;
    }
    r
}

/// Where a batch is interpolated: on the host with the results, or on the device with the
/// request.
pub open spec fn is_ifft_batch_step(
    polys: Seq<PolynomialValues>,
    step: Step<Vec<PolynomialCoeffs>, NttRequest>,
) -> bool {
    match step {
        Step::Host(coeffs) => {
            &&& polys.len() > 0 ==> !is_device_batch(
                polys[0].values@.len(),
                polys.len(),
                MIN_GPU_BATCH as nat,
            )
            &&& coeffs@.len() == polys.len()
            &&& forall|i: int|
                0 <= i < polys.len() ==> fft::are_values(
                    (#[trigger] coeffs@[i]).coeffs@,
                    polys[i].values@,
                )
        },
        Step::Device(request) => {
            &&& polys.len() > 0
            &&& is_device_batch(
                polys[0].values@.len(),
                polys.len(),
                MIN_GPU_BATCH as nat,
            )
            &&& request.buffer@ == rows::flattened(value_rows(polys))
            &&& request.n == polys[0].values@.len()
            &&& request.lg_n == bits::log2(polys[0].values@.len())
            &&& request.cfg == plain_config(polys.len() as u32)
        },
    }
}

/// Interpolates each polynomial from its values at the powers of the root of unity whose
/// order is their number.
///
/// The length of the first polynomial decides where the work is done.
pub fn ifft_batch_gpu(polys: Vec<PolynomialValues>) -> (r: Step<Vec<PolynomialCoeffs>, NttRequest>)
    requires
        polys@.len() > 0 && is_device_batch(
            polys@[0].values@.len(),
            polys@.len(),
            MIN_GPU_BATCH as nat,
        ) ==> bits::is_power_of_two(polys@[0].values@.len()),
        polys@.len() > 0 && !is_device_batch(
            polys@[0].values@.len(),
            polys@.len(),
            MIN_GPU_BATCH as nat,
        ) ==> forall|i: int|
            0 <= i < polys@.len() ==> fft::is_transform_len((#[trigger] polys@[i]).values@.len()),
    ensures
        is_ifft_batch_step(polys@, r),
{
    if polys.len() == 0 {
        return Step::Host(Vec::new());
    }
    let n: usize = polys[0].len();
    let num_polys: usize = polys.len();
    let mut i: usize = 0;
    if !should_use_gpu(n) || num_polys < MIN_GPU_BATCH {
        let mut coeffs: Vec<PolynomialCoeffs> = Vec::new();
        while i < num_polys
            invariant
                i <= num_polys,
                num_polys == polys@.len(),
                forall|k: int|
                    0 <= k < polys@.len() ==> fft::is_transform_len(
                        (#[trigger] polys@[k]).values@.len(),
                    ),
                coeffs@.len() == i,
                forall|k: int|
                    0 <= k < i ==> fft::are_values(
                        (#[trigger] coeffs@[k]).coeffs@,
                        polys@[k].values@,
                    ),
            decreases num_polys - i,
        {
            coeffs.push(fft::ifft(PolynomialValues::new(rows::copy_all(&polys[i].values))));
            i = i + 1;
        }
        return Step::Host(coeffs);
    }
    let lg_n: usize = bits::log2_strict(n);
    let mut buffer: Vec<GoldilocksField> = Vec::new();
    while i < num_polys
        invariant
            i <= num_polys,
            num_polys == polys@.len(),
            buffer@ == rows::flattened(value_rows(polys@).take(i as int)),
        decreases num_polys - i,
    {
        let mut copy = rows::copy_all(&polys[i].values);
        proof {
            rows::lemma_flattened_step(value_rows(polys@), i as int);
        }
        buffer.append(&mut copy);
        i = i + 1;
    }
    assert(value_rows(polys@).take(i as int) =~= value_rows(polys@));
    Step::Device(NttRequest { buffer, n, lg_n, cfg: NTTConfig::plain(num_polys as u32) })
}

/// Cuts what the device handed back into transforms of `n` elements and divides each
/// element by `2^lg_n`, which the device leaves out.
pub fn finish_ifft_batch_gpu(reply: Vec<GoldilocksField>, n: usize, lg_n: usize) -> (r: Vec<
    PolynomialCoeffs,
>)
    requires
        n > 0,
    ensures
        r@.len() == rows::chunk_count(reply@.len(), n as nat),
        forall|i: int|
            0 <= i < r@.len() ==> is_scaled_down(
                rows::chunk(reply@, n as nat, i as nat),
                (#[trigger] r@[i]).coeffs@,
                lg_n as nat,
            ),
{
    let parts = rows::split_chunks(reply.as_slice(), n);
    let mut r: Vec<PolynomialCoeffs> = Vec::new();
    let mut i: usize = 0;
    while i < parts.len()
        invariant
            i <= parts@.len(),
            forall|k: int|
                0 <= k < parts@.len() ==> (#[trigger] parts@[k])@ == rows::chunk(
                    reply@,
                    n as nat,
                    k as nat,
                ),
            r@.len() == i,
            forall|k: int|
                0 <= k < i ==> is_scaled_down(
                    rows::chunk(reply@, n as nat, k as nat),
                    (#[trigger] r@[k]).coeffs@,
                    lg_n as nat,
                ),
        decreases parts@.len() - i,
    {
        r.push(PolynomialCoeffs::new(scale_down(&parts[i], lg_n)));
        i = i + 1;
    }
    r
}

/// Extends one polynomial and evaluates it on the coset, on the host.
fn lde_coset(poly: &PolynomialCoeffs, rate_bits: usize) -> (r: Vec<GoldilocksField>)
    requires
        poly.coeffs@.len() * pow2(rate_bits as nat) <= usize::MAX,
        fft::is_transform_len(poly.coeffs@.len() * pow2(rate_bits as nat)),
    ensures
        r@.len() == poly.coeffs@.len() * pow2(rate_bits as nat),
        fft::are_values_on_coset(
            poly.coeffs@,
            r@,
            goldilocks::MULTIPLICATIVE_GROUP_GENERATOR as int,
        ),
{
    let extended = poly.lde(rate_bits);
    let shift = GoldilocksField::coset_shift();
    let values = extended.coset_fft(shift);
    proof {
        let c = polynomial::vals(poly.coeffs@);
        let e = polynomial::vals(extended.coeffs@);
        let v = polynomial::vals(values.values@);
        let extra = (e.len() - c.len()) as nat;
        lemma_pow2_pos(rate_bits as nat);
        lemma_mul_inequality(1, pow2(rate_bits as nat) as int, c.len() as int);
        lemma_mul_is_commutative(c.len() as int, pow2(rate_bits as nat) as int);
        assert(e =~= polynomial::zero_extended(c, extra));
        let w = roots::root_of_unity(bits::log2(v.len()));
        assert forall|k: int| 0 <= k < v.len() implies modular::cong(
            #[trigger] v[k],
            polynomial::eval(c, shift.val() * pow(w, k as nat)),
        ) by {
            polynomial::lemma_eval_zero_extended(c, extra, shift.val() * pow(w, k as nat));
        }
    }
    values.values
}

/// Where a batch is extended: on the host with the results, or on the device with the
/// request.
pub open spec fn is_lde_step(
    polynomials: Seq<PolynomialCoeffs>,
    rate_bits: usize,
    step: Step<Vec<Vec<GoldilocksField>>, LdeRequest>,
) -> bool {
    match step {
        Step::Host(values) => {
            &&& polynomials.len() > 0 ==> !is_device_batch(
                polynomials[0].coeffs@.len() * pow2(rate_bits as nat),
                polynomials.len(),
                MIN_GPU_LDE_BATCH as nat,
            )
            &&& values@.len() == polynomials.len()
            &&& forall|i: int|
                0 <= i < polynomials.len() ==> {
                    &&& (#[trigger] values@[i])@.len() == polynomials[i].coeffs@.len() * pow2(
                        rate_bits as nat,
                    )
                    &&& fft::are_values_on_coset(
                        polynomials[i].coeffs@,
                        values@[i]@,
                        goldilocks::MULTIPLICATIVE_GROUP_GENERATOR as int,
                    )
                }
        },
        Step::Device(request) => {
            &&& polynomials.len() > 0
            &&& is_device_batch(
                polynomials[0].coeffs@.len() * pow2(rate_bits as nat),
                polynomials.len(),
                MIN_GPU_LDE_BATCH as nat,
            )
            &&& request.input@ == rows::flattened(coeff_rows(polynomials))
            &&& request.output_size == polynomials[0].coeffs@.len() * pow2(rate_bits as nat)
            &&& request.output_len == polynomials.len() * request.output_size
            &&& request.lg_input == bits::log2(polynomials[0].coeffs@.len())
            &&& request.lg_output == request.lg_input + rate_bits
            &&& request.cfg == coset_config(polynomials.len() as u32, rate_bits as u32)
        },
    }
}

/// Evaluates each polynomial on the coset `shift * H`, where `H` is the group of the roots
/// of unity whose order is `2^rate_bits` times the length of the polynomial.
///
/// The length of the first polynomial decides where the work is done.
pub fn lde_batch_coset_gpu(polynomials: &[PolynomialCoeffs], rate_bits: usize) -> (r: Step<
    Vec<Vec<GoldilocksField>>,
    LdeRequest,
>)
    requires
        polynomials@.len() > 0 ==> polynomials@[0].coeffs@.len() * pow2(rate_bits as nat)
            <= usize::MAX,
        polynomials@.len() > 0 && is_device_batch(
            polynomials@[0].coeffs@.len() * pow2(rate_bits as nat),
            polynomials@.len(),
            MIN_GPU_LDE_BATCH as nat,
        ) ==> bits::is_power_of_two(polynomials@[0].coeffs@.len()) && polynomials@.len() * (
        polynomials@[0].coeffs@.len() * pow2(rate_bits as nat)) <= usize::MAX,
        polynomials@.len() > 0 && !is_device_batch(
            polynomials@[0].coeffs@.len() * pow2(rate_bits as nat),
            polynomials@.len(),
            MIN_GPU_LDE_BATCH as nat,
        ) ==> forall|i: int|
            0 <= i < polynomials@.len() ==> (#[trigger] polynomials@[i]).coeffs@.len() * pow2(
                rate_bits as nat,
            ) <= usize::MAX && fft::is_transform_len(
                polynomials@[i].coeffs@.len() * pow2(rate_bits as nat),
            ),
    ensures
        is_lde_step(polynomials@, rate_bits, r),
{
    if polynomials.len() == 0 {
        return Step::Host(Vec::new());
    }
    let degree: usize = polynomials[0].len();
    let num_polys: usize = polynomials.len();
    let output_size: usize = shifted_left(degree, rate_bits);
    let mut i: usize = 0;
    if !should_use_gpu(output_size) || num_polys < MIN_GPU_LDE_BATCH {
        let mut values: Vec<Vec<GoldilocksField>> = Vec::new();
        while i < num_polys
            invariant
                i <= num_polys,
                num_polys == polynomials@.len(),
                forall|k: int|
                    0 <= k < polynomials@.len() ==> (#[trigger] polynomials@[k]).coeffs@.len()
                        * pow2(rate_bits as nat) <= usize::MAX && fft::is_transform_len(
                        polynomials@[k].coeffs@.len() * pow2(rate_bits as nat),
                    ),
                values@.len() == i,
                forall|k: int|
                    0 <= k < i ==> {
                        &&& (#[trigger] values@[k])@.len() == polynomials@[k].coeffs@.len() * pow2(
                            rate_bits as nat,
                        )
                        &&& fft::are_values_on_coset(
                            polynomials@[k].coeffs@,
                            values@[k]@,
                            goldilocks::MULTIPLICATIVE_GROUP_GENERATOR as int,
                        )
                    },
            decreases num_polys - i,
        {
            values.push(lde_coset(&polynomials[i], rate_bits));
            i = i + 1;
        }
        return Step::Host(values);
    }
    let lg_input: usize = bits::log2_strict(degree);
    proof {
        lemma_pow2_pos(rate_bits as nat);
        lemma_pow2_pos(lg_input as nat);
        lemma_mul_inequality(1, degree as int, pow2(rate_bits as nat) as int);
        bits::lemma_pow2_fits_usize(rate_bits as nat);
    }
    let lg_output: usize = lg_input + rate_bits;
    let mut input: Vec<GoldilocksField> = Vec::new();
    while i < num_polys
        invariant
            i <= num_polys,
            num_polys == polynomials@.len(),
            input@ == rows::flattened(coeff_rows(polynomials@).take(i as int)),
        decreases num_polys - i,
    {
        let mut copy = rows::copy_all(&polynomials[i].coeffs);
        proof {
            rows::lemma_flattened_step(coeff_rows(polynomials@), i as int);
        }
        input.append(&mut copy);
        i = i + 1;
    }
    assert(coeff_rows(polynomials@).take(i as int) =~= coeff_rows(polynomials@));
    let mut cfg = NTTConfig::plain(num_polys as u32);
    cfg.extension_rate_bits = rate_bits as u32;
    cfg.with_coset = true;
    Step::Device(
        LdeRequest {
            input,
            output_len: num_polys * output_size,
            output_size,
            lg_input,
            lg_output,
            cfg,
        },
    )
}

/// Cuts what the device handed back into the values of each polynomial.
pub fn finish_lde_batch_coset_gpu(reply: Vec<GoldilocksField>, output_size: usize) -> (r: Vec<
    Vec<GoldilocksField>,
>)
    requires
        output_size > 0,
    ensures
        r@.len() == rows::chunk_count(reply@.len(), output_size as nat),
        forall|i: int|
            0 <= i < r@.len() ==> (#[trigger] r@[i])@ == rows::chunk(
                reply@,
                output_size as nat,
                i as nat,
            ),
{
    rows::split_chunks(reply.as_slice(), output_size)
}

/// `n * 2^bits`.
fn shifted_left(n: usize, bits: usize) -> (r: usize)
    requires
        n * pow2(bits as nat) <= usize::MAX,
    ensures
        r == n * pow2(bits as nat),
{
    if n == 0 {
        proof {
            lemma_mul_basics(pow2(bits as nat) as int);
        }
        return 0;
    }
    proof {
        lemma_mul_inequality(1, n as int, pow2(bits as nat) as int);
    }
    n * bits::pow2_exec(bits)
}

/// What to prepare on the device before a batch of transforms runs.
pub fn prepare_ntt(gpu: &mut GpuState, request: &NttRequest) -> (r: Vec<InitAction>)
    ensures
        r@ == old(gpu).missing_twiddles(request.lg_n),
        final(gpu).extends(old(gpu), Some(request.lg_n), None),
{
    gpu.ensure_twiddle_factors(request.lg_n)
}

/// What to prepare on the device before a batch of low-degree extensions runs.
pub fn prepare_lde(gpu: &mut GpuState, request: &LdeRequest) -> (r: Vec<InitAction>)
    ensures
        r@ == old(gpu).missing_lde(request.lg_output),
        final(gpu).extends(old(gpu), Some(request.lg_output), Some(request.lg_output)),
{
    let mut actions = gpu.ensure_twiddle_factors(request.lg_output);
    let mut coset = gpu.ensure_coset_factors(request.lg_output);
    actions.append(&mut coset);
    actions
}

/// `reply` holds what a right device makes of the forward transforms in `input`: the
/// values of each run of `n` coefficients.
pub open spec fn is_ntt_reply(
    input: Seq<GoldilocksField>,
    reply: Seq<GoldilocksField>,
    n: nat,
) -> bool {
    &&& reply.len() == input.len()
    &&& forall|i: nat|
        i < rows::chunk_count(input.len(), n) ==> fft::are_values(
            rows::chunk(input, n, i),
            #[trigger] rows::chunk(reply, n, i),
        )
}

/// `sums` is the inverse transform of `values` without the division by the length: the
/// values of the polynomial `values` at the powers of the inverse of the root of unity.
pub open spec fn is_unscaled_inverse(
    values: Seq<GoldilocksField>,
    sums: Seq<GoldilocksField>,
) -> bool {
    &&& sums.len() == values.len()
    &&& polynomial::is_evaluation(
        polynomial::vals(values),
        polynomial::vals(sums),
        1,
        roots::inverse_root(bits::log2(values.len())),
    )
}

/// `reply` holds what a right device makes of the inverse transforms in `input`: the
/// unscaled inverse of each run of `n` values.
pub open spec fn is_intt_reply(
    input: Seq<GoldilocksField>,
    reply: Seq<GoldilocksField>,
    n: nat,
) -> bool {
    &&& reply.len() == input.len()
    &&& forall|i: nat|
        i < rows::chunk_count(input.len(), n) ==> is_unscaled_inverse(
            rows::chunk(input, n, i),
            #[trigger] rows::chunk(reply, n, i),
        )
}

/// `reply` holds what a right device makes of the low-degree extensions of `input`: for
/// each run of `degree` coefficients its `output_size` values on the coset.
pub open spec fn is_lde_reply(
    input: Seq<GoldilocksField>,
    reply: Seq<GoldilocksField>,
    degree: nat,
    output_size: nat,
) -> bool {
    &&& reply.len() == rows::chunk_count(input.len(), degree) * output_size
    &&& forall|i: nat|
        i < rows::chunk_count(input.len(), degree) ==> fft::are_values_on_coset(
            rows::chunk(input, degree, i),
            #[trigger] rows::chunk(reply, output_size, i),
            goldilocks::MULTIPLICATIVE_GROUP_GENERATOR as int,
        )
}

/// From a right reply of the device, `finish_fft_batch_gpu` makes the values of each
/// polynomial, as the host does.
pub proof fn lemma_fft_batch_of_reply(
    polys: Seq<PolynomialCoeffs>,
    reply: Seq<GoldilocksField>,
    n: nat,
)
    requires
        n > 0,
        forall|i: int| 0 <= i < polys.len() ==> (#[trigger] polys[i]).coeffs@.len() == n,
        is_ntt_reply(rows::flattened(coeff_rows(polys)), reply, n),
    ensures
        rows::chunk_count(reply.len(), n) == polys.len(),
        forall|i: int|
            0 <= i < polys.len() ==> fft::are_values(
                polys[i].coeffs@,
                #[trigger] rows::chunk(reply, n, i as nat),
            ),
{
    let input = rows::flattened(coeff_rows(polys));
    assert forall|i: int| 0 <= i < coeff_rows(polys).len() implies (#[trigger] coeff_rows(
        polys,
    )[i]).len() == n by {
        assert(polys[i].coeffs@.len() == n);
    }
    rows::lemma_chunks_of_flattened(coeff_rows(polys), n);
    assert forall|i: int| 0 <= i < polys.len() implies fft::are_values(
        polys[i].coeffs@,
        #[trigger] rows::chunk(reply, n, i as nat),
    ) by {
        assert(rows::chunk(input, n, i as nat) == coeff_rows(polys)[i]);
    }
}

/// From a right reply of the device, the division by the length makes the coefficients of
/// the polynomial with the given values, as the host does.
pub proof fn lemma_ifft_of_reply(
    values: Seq<GoldilocksField>,
    reply: Seq<GoldilocksField>,
    coeffs: Seq<GoldilocksField>,
)
    requires
        fft::is_transform_len(values.len()),
        is_unscaled_inverse(values, reply),
        is_scaled_down(reply, coeffs, bits::log2(values.len())),
    ensures
        fft::are_values(coeffs, values),
{
    let lg = bits::log2(values.len());
    let w = roots::root_of_unity(lg);
    let u = roots::inverse_root(lg);
    let vv = polynomial::vals(values);
    let sv = polynomial::vals(reply);
    let cv = polynomial::vals(coeffs);
    roots::lemma_inverse_root(lg);
    let n_inv = fft::lemma_pow2_inverse(lg);
    let e = pow2(lg) as int;
    assert forall|j: int| 0 <= j < cv.len() implies modular::cong(
        #[trigger] cv[j],
        n_inv * polynomial::eval(vv, pow(u, j as nat)),
    ) by {
        let y = polynomial::eval(vv, pow(u, j as nat));
        lemma_mul_basics(pow(u, j as nat));
        assert(modular::cong(sv[j], y));
        assert(modular::cong(coeffs[j].val() * e, reply[j].val()));
        modular::lemma_cong_mul(n_inv, n_inv, cv[j] * e, y);
        lemma_mul_is_commutative(cv[j], e);
        lemma_mul_is_associative(n_inv, e, cv[j]);
        modular::lemma_cong_mul(n_inv * e, 1, cv[j], cv[j]);
        lemma_mul_basics(cv[j]);
    }
    fft::lemma_interpolates(vv, cv, w, u, n_inv, lg);
}

/// From a right reply of the device, `finish_ifft_batch_gpu` makes the coefficients of each
/// polynomial, as the host does.
pub proof fn lemma_ifft_batch_of_reply(
    polys: Seq<PolynomialValues>,
    reply: Seq<GoldilocksField>,
    coeffs: Seq<Seq<GoldilocksField>>,
    n: nat,
)
    requires
        fft::is_transform_len(n),
        forall|i: int| 0 <= i < polys.len() ==> (#[trigger] polys[i]).values@.len() == n,
        is_intt_reply(rows::flattened(value_rows(polys)), reply, n),
        coeffs.len() == rows::chunk_count(reply.len(), n),
        forall|i: int|
            0 <= i < coeffs.len() ==> is_scaled_down(
                rows::chunk(reply, n, i as nat),
                #[trigger] coeffs[i],
                bits::log2(n),
            ),
    ensures
        coeffs.len() == polys.len(),
        forall|i: int|
            0 <= i < polys.len() ==> fft::are_values(#[trigger] coeffs[i], polys[i].values@),
{
    let input = rows::flattened(value_rows(polys));
    lemma_pow2_pos(bits::log2(n));
    assert forall|i: int| 0 <= i < value_rows(polys).len() implies (#[trigger] value_rows(
        polys,
    )[i]).len() == n by {
        assert(polys[i].values@.len() == n);
    }
    rows::lemma_chunks_of_flattened(value_rows(polys), n);
    assert forall|i: int| 0 <= i < polys.len() implies fft::are_values(
        #[trigger] coeffs[i],
        polys[i].values@,
    ) by {
        assert(rows::chunk(input, n, i as nat) == value_rows(polys)[i]);
        lemma_ifft_of_reply(polys[i].values@, rows::chunk(reply, n, i as nat), coeffs[i]);
    }
}

/// From a right reply of the device, `finish_lde_batch_coset_gpu` makes for each polynomial
/// its values on the coset, as the host does.
pub proof fn lemma_lde_batch_of_reply(
    polys: Seq<PolynomialCoeffs>,
    reply: Seq<GoldilocksField>,
    degree: nat,
    output_size: nat,
)
    requires
        degree > 0,
        output_size > 0,
        forall|i: int| 0 <= i < polys.len() ==> (#[trigger] polys[i]).coeffs@.len() == degree,
        is_lde_reply(rows::flattened(coeff_rows(polys)), reply, degree, output_size),
    ensures
        rows::chunk_count(reply.len(), output_size) == polys.len(),
        forall|i: int|
            0 <= i < polys.len() ==> {
                &&& (#[trigger] rows::chunk(reply, output_size, i as nat)).len() == output_size
                &&& fft::are_values_on_coset(
                    polys[i].coeffs@,
                    rows::chunk(reply, output_size, i as nat),
                    goldilocks::MULTIPLICATIVE_GROUP_GENERATOR as int,
                )
            },
{
    let input = rows::flattened(coeff_rows(polys));
    let k = polys.len() as int;
    let m = output_size as int;
    assert forall|i: int| 0 <= i < coeff_rows(polys).len() implies (#[trigger] coeff_rows(
        polys,
    )[i]).len() == degree by {
        assert(polys[i].coeffs@.len() == degree);
    }
    rows::lemma_chunks_of_flattened(coeff_rows(polys), degree);
    assert((k * m + m - 1) / m == k) by (nonlinear_arith)
        requires
            m > 0,
            k >= 0,
    ;
    assert forall|i: int| 0 <= i < polys.len() implies {
        &&& (#[trigger] rows::chunk(reply, output_size, i as nat)).len() == output_size
        &&& fft::are_values_on_coset(
            polys[i].coeffs@,
            rows::chunk(reply, output_size, i as nat),
            goldilocks::MULTIPLICATIVE_GROUP_GENERATOR as int,
        )
    } by {
        assert(rows::chunk(input, degree, i as nat) == coeff_rows(polys)[i]);
        lemma_mul_inequality(i + 1, k, m);
        lemma_mul_is_distributive_add_other_way(m, i, 1);
        lemma_mul_nonnegative(i, m);
    }
}

/// A run in natural order is a run of the buffer.
proof fn lemma_run_is_chunk(s: Seq<GoldilocksField>, lg: nat, i: nat)
    requires
        (i + 1) * pow2(lg) <= s.len(),
    ensures
        device::run(s, lg, i, false) == rows::chunk(s, pow2(lg), i),
{
    lemma_mul_is_distributive_add_other_way(pow2(lg) as int, i as int, 1);
    lemma_mul_nonnegative(i as int, pow2(lg) as int);
    assert(device::run(s, lg, i, false) =~= rows::chunk(s, pow2(lg), i));
}

/// `count` runs of `n` elements are that many, in 32 bits too where the device can count
/// them.
pub proof fn lemma_runs_counted(len: nat, n: nat, count: nat)
    requires
        n > 0,
        len == count * n,
        len <= 0xFFFF_FFFF * n,
    ensures
        count as u32 == count,
        rows::chunk_count(len, n) == count,
        forall|i: nat| i < count ==> #[trigger] ((i + 1) * n) <= len,
{
    assert(count <= 0xFFFF_FFFF) by (nonlinear_arith)
        requires
            n > 0,
            count * n <= 0xFFFF_FFFF * n,
    ;
    let k = count as int;
    let m = n as int;
    assert((k * m + m - 1) / m == k) by (nonlinear_arith)
        requires
            m > 0,
            k >= 0,
    ;
    assert forall|i: nat| i < count implies #[trigger] ((i + 1) * n) <= len by {
        lemma_mul_inequality((i + 1) as int, count as int, n as int);
    }
}

/// What a right device makes of a plain request for `count` forward transforms.
proof fn lemma_ntt_as_sent(request: NttRequest, reply: Seq<GoldilocksField>, count: nat)
    requires
        request.cfg == plain_config(count as u32),
        request.n == pow2(request.lg_n as nat),
        request.buffer@.len() == count * request.n,
        device::ntt(request, reply),
    ensures
        is_ntt_reply(request.buffer@, reply, request.n as nat),
{
    let lg = request.lg_n as nat;
    let n = request.n as nat;
    lemma_pow2_pos(lg);
    lemma_runs_counted(request.buffer@.len(), n, count);
    assert forall|i: nat| i < rows::chunk_count(request.buffer@.len(), n) implies fft::are_values(
        rows::chunk(request.buffer@, n, i),
        #[trigger] rows::chunk(reply, n, i),
    ) by {
        assert((i + 1) * n <= request.buffer@.len());
        lemma_run_is_chunk(request.buffer@, lg, i);
        lemma_run_is_chunk(reply, lg, i);
        assert(!device::reads_reversed(request.cfg));
        assert(device::run(reply, lg, i, device::writes_reversed(request.cfg)).len() == n);
    }
}

/// What a right device makes of a plain request for `count` inverse transforms.
proof fn lemma_intt_as_sent(request: NttRequest, reply: Seq<GoldilocksField>, count: nat)
    requires
        request.cfg == plain_config(count as u32),
        request.n == pow2(request.lg_n as nat),
        request.buffer@.len() == count * request.n,
        device::intt(request, reply),
    ensures
        is_intt_reply(request.buffer@, reply, request.n as nat),
{
    let lg = request.lg_n as nat;
    let n = request.n as nat;
    lemma_pow2_pos(lg);
    lemma_runs_counted(request.buffer@.len(), n, count);
    assert forall|i: nat| i < rows::chunk_count(
        request.buffer@.len(),
        n,
    ) implies is_unscaled_inverse(
        rows::chunk(request.buffer@, n, i),
        #[trigger] rows::chunk(reply, n, i),
    ) by {
        assert((i + 1) * n <= request.buffer@.len());
        lemma_run_is_chunk(request.buffer@, lg, i);
        lemma_run_is_chunk(reply, lg, i);
        assert(!device::reads_reversed(request.cfg));
        assert(device::run(reply, lg, i, device::writes_reversed(request.cfg)).len() == n);
    }
}

/// What a right device makes of a request for `count` low-degree extensions on the coset.
proof fn lemma_lde_as_sent(
    request: LdeRequest,
    reply: Seq<GoldilocksField>,
    count: nat,
    rate_bits: usize,
)
    requires
        request.cfg == coset_config(count as u32, rate_bits as u32),
        request.input@.len() == count * pow2(request.lg_input as nat),
        request.output_size == pow2(request.lg_input as nat) * pow2(rate_bits as nat),
        request.output_len == count * request.output_size,
        device::lde(request, reply),
    ensures
        is_lde_reply(
            request.input@,
            reply,
            pow2(request.lg_input as nat),
            request.output_size as nat,
        ),
{
    let lg = request.lg_input as nat;
    let n = pow2(lg);
    let m = request.output_size as nat;
    lemma_pow2_pos(lg);
    lemma_pow2_pos(rate_bits as nat);
    lemma_mul_inequality(1, n as int, pow2(rate_bits as nat) as int);
    bits::lemma_pow2_fits_usize(rate_bits as nat);
    lemma_pow2_adds(lg, rate_bits as nat);
    lemma_runs_counted(request.input@.len(), n, count);
    assert forall|i: nat| i < rows::chunk_count(
        request.input@.len(),
        n,
    ) implies fft::are_values_on_coset(
        rows::chunk(request.input@, n, i),
        #[trigger] rows::chunk(reply, m, i),
        goldilocks::MULTIPLICATIVE_GROUP_GENERATOR as int,
    ) by {
        assert((i + 1) * n <= request.input@.len());
        lemma_mul_inequality((i + 1) as int, count as int, m as int);
        lemma_run_is_chunk(request.input@, lg, i);
        lemma_run_is_chunk(reply, lg + rate_bits as nat, i);
        assert(!device::reads_reversed(request.cfg));
        assert(device::run(
            reply,
            lg + request.cfg.extension_rate_bits as nat,
            i,
            device::writes_reversed(request.cfg),
        ).len() == m);
    }
}

/// The coefficients of polynomials of the same length, joined.
proof fn lemma_coeff_rows_len(polys: Seq<PolynomialCoeffs>, n: nat)
    requires
        n > 0,
        forall|i: int| 0 <= i < polys.len() ==> (#[trigger] polys[i]).coeffs@.len() == n,
    ensures
        rows::flattened(coeff_rows(polys)).len() == polys.len() * n,
{
    assert forall|i: int| 0 <= i < coeff_rows(polys).len() implies (#[trigger] coeff_rows(
        polys,
    )[i]).len() == n by {
        assert(polys[i].coeffs@.len() == n);
    }
    rows::lemma_chunks_of_flattened(coeff_rows(polys), n);
}

/// The values of polynomials of the same length, joined.
proof fn lemma_value_rows_len(polys: Seq<PolynomialValues>, n: nat)
    requires
        n > 0,
        forall|i: int| 0 <= i < polys.len() ==> (#[trigger] polys[i]).values@.len() == n,
    ensures
        rows::flattened(value_rows(polys)).len() == polys.len() * n,
{
    assert forall|i: int| 0 <= i < value_rows(polys).len() implies (#[trigger] value_rows(
        polys,
    )[i]).len() == n by {
        assert(polys[i].values@.len() == n);
    }
    rows::lemma_chunks_of_flattened(value_rows(polys), n);
}

/// What `fft_gpu` leads to: the result of the host, or what `finish_fft_gpu` makes of a
/// right reply of the device.
pub open spec fn is_fft_outcome(
    step: Step<PolynomialValues, NttRequest>,
    values: Seq<GoldilocksField>,
) -> bool {
    match step {
        Step::Host(host) => values == host.values@,
        Step::Device(request) => device::ntt(request, values),
    }
}

/// What `ifft_gpu` leads to: the result of the host, or what `finish_ifft_gpu` makes of a
/// right reply of the device.
pub open spec fn is_ifft_outcome(
    step: Step<PolynomialCoeffs, NttRequest>,
    coeffs: Seq<GoldilocksField>,
) -> bool {
    match step {
        Step::Host(host) => coeffs == host.coeffs@,
        Step::Device(request) => exists|reply: Seq<GoldilocksField>|
            {
                &&& #[trigger] device::intt(request, reply)
                &&& is_scaled_down(reply, coeffs, request.lg_n as nat)
            },
    }
}

/// What `fft_batch_gpu` leads to: the results of the host, or what `finish_fft_batch_gpu`
/// makes of a right reply of the device.
pub open spec fn is_fft_batch_outcome(
    step: Step<Vec<PolynomialValues>, NttRequest>,
    values: Seq<PolynomialValues>,
) -> bool {
    match step {
        Step::Host(host) => value_rows(values) == value_rows(host@),
        Step::Device(request) => exists|reply: Seq<GoldilocksField>|
            {
                &&& #[trigger] device::ntt(request, reply)
                &&& values.len() == rows::chunk_count(reply.len(), request.n as nat)
                &&& forall|i: int|
                    0 <= i < values.len() ==> (#[trigger] values[i]).values@ == rows::chunk(
                        reply,
                        request.n as nat,
                        i as nat,
                    )
            },
    }
}

/// What `ifft_batch_gpu` leads to: the results of the host, or what `finish_ifft_batch_gpu`
/// makes of a right reply of the device.
pub open spec fn is_ifft_batch_outcome(
    step: Step<Vec<PolynomialCoeffs>, NttRequest>,
    coeffs: Seq<PolynomialCoeffs>,
) -> bool {
    match step {
        Step::Host(host) => coeff_rows(coeffs) == coeff_rows(host@),
        Step::Device(request) => exists|reply: Seq<GoldilocksField>|
            {
                &&& #[trigger] device::intt(request, reply)
                &&& coeffs.len() == rows::chunk_count(reply.len(), request.n as nat)
                &&& forall|i: int|
                    0 <= i < coeffs.len() ==> is_scaled_down(
                        rows::chunk(reply, request.n as nat, i as nat),
                        (#[trigger] coeffs[i]).coeffs@,
                        request.lg_n as nat,
                    )
            },
    }
}

/// What `lde_batch_coset_gpu` leads to: the results of the host, or what
/// `finish_lde_batch_coset_gpu` makes of a right reply of the device.
pub open spec fn is_lde_outcome(
    step: Step<Vec<Vec<GoldilocksField>>, LdeRequest>,
    values: Seq<Vec<GoldilocksField>>,
) -> bool {
    match step {
        Step::Host(host) => rows::views(values) == rows::views(host@),
        Step::Device(request) => exists|reply: Seq<GoldilocksField>|
            {
                &&& #[trigger] device::lde(request, reply)
                &&& values.len() == rows::chunk_count(reply.len(), request.output_size as nat)
                &&& forall|i: int|
                    0 <= i < values.len() ==> (#[trigger] values[i])@ == rows::chunk(
                        reply,
                        request.output_size as nat,
                        i as nat,
                    )
            },
    }
}

/// `fft_gpu` leads to the values of the polynomial, wherever the work is done.
pub proof fn lemma_fft_outcome(
    poly: PolynomialCoeffs,
    step: Step<PolynomialValues, NttRequest>,
    values: Seq<GoldilocksField>,
)
    requires
        fft::is_transform_len(poly.coeffs@.len()),
        is_fft_step(poly, step),
        is_fft_outcome(step, values),
    ensures
        fft::are_values(poly.coeffs@, values),
{
    lemma_pow2_pos(bits::log2(poly.coeffs@.len()));
    rows::lemma_whole_chunk(poly.coeffs@);
    if let Step::Device(request) = step {
        lemma_mul_basics(request.n as int);
        lemma_ntt_as_sent(request, values, 1);
        rows::lemma_whole_chunk(values);
    }
}

/// `ifft_gpu` leads to the coefficients of the polynomial with the given values, wherever
/// the work is done.
pub proof fn lemma_ifft_outcome(
    poly: PolynomialValues,
    step: Step<PolynomialCoeffs, NttRequest>,
    coeffs: Seq<GoldilocksField>,
)
    requires
        fft::is_transform_len(poly.values@.len()),
        is_ifft_step(poly, step),
        is_ifft_outcome(step, coeffs),
    ensures
        fft::are_values(coeffs, poly.values@),
{
    lemma_pow2_pos(bits::log2(poly.values@.len()));
    if let Step::Device(request) = step {
        let reply = choose|reply: Seq<GoldilocksField>|
            {
                &&& #[trigger] device::intt(request, reply)
                &&& is_scaled_down(reply, coeffs, request.lg_n as nat)
            };
        lemma_mul_basics(request.n as int);
        lemma_intt_as_sent(request, reply, 1);
        rows::lemma_whole_chunk(poly.values@);
        rows::lemma_whole_chunk(reply);
        lemma_ifft_of_reply(poly.values@, reply, coeffs);
    }
}

/// `ifft_gpu` after `fft_gpu` recovers the coefficients, wherever the work is done.
pub proof fn lemma_ifft_undoes_fft(
    poly: PolynomialCoeffs,
    step: Step<PolynomialValues, NttRequest>,
    values: PolynomialValues,
    back: Step<PolynomialCoeffs, NttRequest>,
    recovered: Seq<GoldilocksField>,
)
    requires
        fft::is_transform_len(poly.coeffs@.len()),
        is_fft_step(poly, step),
        is_fft_outcome(step, values.values@),
        is_ifft_step(values, back),
        is_ifft_outcome(back, recovered),
    ensures
        fft::same_elements(poly.coeffs@, recovered),
{
    lemma_fft_outcome(poly, step, values.values@);
    lemma_ifft_outcome(values, back, recovered);
    fft::lemma_values_determine_coeffs(poly.coeffs@, recovered, values.values@);
}

/// `fft_gpu` after `ifft_gpu` recovers the values, wherever the work is done.
pub proof fn lemma_fft_undoes_ifft(
    poly: PolynomialValues,
    step: Step<PolynomialCoeffs, NttRequest>,
    coeffs: PolynomialCoeffs,
    back: Step<PolynomialValues, NttRequest>,
    recovered: Seq<GoldilocksField>,
)
    requires
        fft::is_transform_len(poly.values@.len()),
        is_ifft_step(poly, step),
        is_ifft_outcome(step, coeffs.coeffs@),
        is_fft_step(coeffs, back),
        is_fft_outcome(back, recovered),
    ensures
        fft::same_elements(poly.values@, recovered),
{
    lemma_ifft_outcome(poly, step, coeffs.coeffs@);
    lemma_fft_outcome(coeffs, back, recovered);
    fft::lemma_coeffs_determine_values(coeffs.coeffs@, poly.values@, recovered);
}

/// `fft_batch_gpu` leads to the values of each polynomial in order, wherever the work is
/// done.
pub proof fn lemma_fft_batch_outcome(
    polys: Seq<PolynomialCoeffs>,
    n: nat,
    step: Step<Vec<PolynomialValues>, NttRequest>,
    values: Seq<PolynomialValues>,
)
    requires
        fft::is_transform_len(n),
        forall|i: int| 0 <= i < polys.len() ==> (#[trigger] polys[i]).coeffs@.len() == n,
        is_fft_batch_step(polys, step),
        is_fft_batch_outcome(step, values),
    ensures
        values.len() == polys.len(),
        forall|i: int|
            0 <= i < polys.len() ==> fft::are_values(
                polys[i].coeffs@,
                (#[trigger] values[i]).values@,
            ),
{
    lemma_pow2_pos(bits::log2(n));
    match step {
        Step::Host(host) => {
            assert(value_rows(values).len() == value_rows(host@).len());
            assert forall|i: int| 0 <= i < polys.len() implies fft::are_values(
                polys[i].coeffs@,
                (#[trigger] values[i]).values@,
            ) by {
                assert(value_rows(values)[i] == value_rows(host@)[i]);
                assert(host@[i].values@ == values[i].values@);
            }
        },
        Step::Device(request) => {
            let reply = choose|reply: Seq<GoldilocksField>|
                {
                    &&& #[trigger] device::ntt(request, reply)
                    &&& values.len() == rows::chunk_count(reply.len(), request.n as nat)
                    &&& forall|i: int|
                        0 <= i < values.len() ==> (#[trigger] values[i]).values@ == rows::chunk(
                            reply,
                            request.n as nat,
                            i as nat,
                        )
                };
            assert(polys[0].coeffs@.len() == n);
            lemma_coeff_rows_len(polys, n);
            lemma_ntt_as_sent(request, reply, polys.len());
            lemma_fft_batch_of_reply(polys, reply, n);
            assert forall|i: int| 0 <= i < polys.len() implies fft::are_values(
                polys[i].coeffs@,
                (#[trigger] values[i]).values@,
            ) by {
                assert(values[i].values@ == rows::chunk(reply, n, i as nat));
            }
        },
    }
}

/// `ifft_batch_gpu` leads to the coefficients of each polynomial in order, wherever the
/// work is done.
pub proof fn lemma_ifft_batch_outcome(
    polys: Seq<PolynomialValues>,
    n: nat,
    step: Step<Vec<PolynomialCoeffs>, NttRequest>,
    coeffs: Seq<PolynomialCoeffs>,
)
    requires
        fft::is_transform_len(n),
        forall|i: int| 0 <= i < polys.len() ==> (#[trigger] polys[i]).values@.len() == n,
        is_ifft_batch_step(polys, step),
        is_ifft_batch_outcome(step, coeffs),
    ensures
        coeffs.len() == polys.len(),
        forall|i: int|
            0 <= i < polys.len() ==> fft::are_values(
                (#[trigger] coeffs[i]).coeffs@,
                polys[i].values@,
            ),
{
    match step {
        Step::Host(host) => {
            assert(coeff_rows(coeffs).len() == coeff_rows(host@).len());
            assert forall|i: int| 0 <= i < polys.len() implies fft::are_values(
                (#[trigger] coeffs[i]).coeffs@,
                polys[i].values@,
            ) by {
                assert(coeff_rows(coeffs)[i] == coeff_rows(host@)[i]);
                assert(host@[i].coeffs@ == coeffs[i].coeffs@);
            }
        },
        Step::Device(request) => {
            let reply = choose|reply: Seq<GoldilocksField>|
                {
                    &&& #[trigger] device::intt(request, reply)
                    &&& coeffs.len() == rows::chunk_count(reply.len(), request.n as nat)
                    &&& forall|i: int|
                        0 <= i < coeffs.len() ==> is_scaled_down(
                            rows::chunk(reply, request.n as nat, i as nat),
                            (#[trigger] coeffs[i]).coeffs@,
                            request.lg_n as nat,
                        )
                };
            assert(polys[0].values@.len() == n);
            lemma_pow2_pos(bits::log2(n));
            lemma_value_rows_len(polys, n);
            lemma_intt_as_sent(request, reply, polys.len());
            let c = coeff_rows(coeffs);
            assert forall|i: int| 0 <= i < c.len() implies is_scaled_down(
                rows::chunk(reply, n, i as nat),
                #[trigger] c[i],
                bits::log2(n),
            ) by {
                assert(c[i] == coeffs[i].coeffs@);
            }
            lemma_ifft_batch_of_reply(polys, reply, c, n);
            assert forall|i: int| 0 <= i < polys.len() implies fft::are_values(
                (#[trigger] coeffs[i]).coeffs@,
                polys[i].values@,
            ) by {
                assert(c[i] == coeffs[i].coeffs@);
            }
        },
    }
}

/// `fft_batch_gpu` gives each polynomial the same field elements as `fft_gpu` does.
pub proof fn lemma_fft_batch_is_fft(
    polys: Seq<PolynomialCoeffs>,
    n: nat,
    step: Step<Vec<PolynomialValues>, NttRequest>,
    values: Seq<PolynomialValues>,
    k: int,
    single_step: Step<PolynomialValues, NttRequest>,
    single: Seq<GoldilocksField>,
)
    requires
        fft::is_transform_len(n),
        forall|i: int| 0 <= i < polys.len() ==> (#[trigger] polys[i]).coeffs@.len() == n,
        is_fft_batch_step(polys, step),
        is_fft_batch_outcome(step, values),
        0 <= k < polys.len(),
        is_fft_step(polys[k], single_step),
        is_fft_outcome(single_step, single),
    ensures
        values.len() == polys.len(),
        fft::same_elements(values[k].values@, single),
{
    lemma_fft_batch_outcome(polys, n, step, values);
    assert(fft::are_values(polys[k].coeffs@, values[k].values@));
    lemma_fft_outcome(polys[k], single_step, single);
    fft::lemma_coeffs_determine_values(polys[k].coeffs@, values[k].values@, single);
}

/// `ifft_batch_gpu` gives each polynomial the same field elements as `ifft_gpu` does.
pub proof fn lemma_ifft_batch_is_ifft(
    polys: Seq<PolynomialValues>,
    n: nat,
    step: Step<Vec<PolynomialCoeffs>, NttRequest>,
    coeffs: Seq<PolynomialCoeffs>,
    k: int,
    single_step: Step<PolynomialCoeffs, NttRequest>,
    single: Seq<GoldilocksField>,
)
    requires
        fft::is_transform_len(n),
        forall|i: int| 0 <= i < polys.len() ==> (#[trigger] polys[i]).values@.len() == n,
        is_ifft_batch_step(polys, step),
        is_ifft_batch_outcome(step, coeffs),
        0 <= k < polys.len(),
        is_ifft_step(polys[k], single_step),
        is_ifft_outcome(single_step, single),
    ensures
        coeffs.len() == polys.len(),
        fft::same_elements(coeffs[k].coeffs@, single),
{
    lemma_ifft_batch_outcome(polys, n, step, coeffs);
    assert(fft::are_values(coeffs[k].coeffs@, polys[k].values@));
    lemma_ifft_outcome(polys[k], single_step, single);
    fft::lemma_values_determine_coeffs(coeffs[k].coeffs@, single, polys[k].values@);
}

/// `ifft_batch_gpu` after `fft_batch_gpu` recovers every polynomial of the batch, wherever
/// the work is done.
pub proof fn lemma_ifft_batch_undoes_fft_batch(
    polys: Seq<PolynomialCoeffs>,
    n: nat,
    step: Step<Vec<PolynomialValues>, NttRequest>,
    values: Seq<PolynomialValues>,
    back: Step<Vec<PolynomialCoeffs>, NttRequest>,
    recovered: Seq<PolynomialCoeffs>,
)
    requires
        fft::is_transform_len(n),
        forall|i: int| 0 <= i < polys.len() ==> (#[trigger] polys[i]).coeffs@.len() == n,
        is_fft_batch_step(polys, step),
        is_fft_batch_outcome(step, values),
        is_ifft_batch_step(values, back),
        is_ifft_batch_outcome(back, recovered),
    ensures
        recovered.len() == polys.len(),
        forall|i: int|
            0 <= i < polys.len() ==> fft::same_elements(
                polys[i].coeffs@,
                (#[trigger] recovered[i]).coeffs@,
            ),
{
    lemma_fft_batch_outcome(polys, n, step, values);
    assert forall|i: int| 0 <= i < values.len() implies (#[trigger] values[i]).values@.len()
        == n by {
        assert(fft::are_values(polys[i].coeffs@, values[i].values@));
    }
    lemma_ifft_batch_outcome(values, n, back, recovered);
    assert forall|i: int| 0 <= i < polys.len() implies fft::same_elements(
        polys[i].coeffs@,
        (#[trigger] recovered[i]).coeffs@,
    ) by {
        assert(fft::are_values(polys[i].coeffs@, values[i].values@));
        fft::lemma_values_determine_coeffs(
            polys[i].coeffs@,
            recovered[i].coeffs@,
            values[i].values@,
        );
    }
}

/// `fft_batch_gpu` after `ifft_batch_gpu` recovers all values of the batch, wherever the
/// work is done.
pub proof fn lemma_fft_batch_undoes_ifft_batch(
    polys: Seq<PolynomialValues>,
    n: nat,
    step: Step<Vec<PolynomialCoeffs>, NttRequest>,
    coeffs: Seq<PolynomialCoeffs>,
    back: Step<Vec<PolynomialValues>, NttRequest>,
    recovered: Seq<PolynomialValues>,
)
    requires
        fft::is_transform_len(n),
        forall|i: int| 0 <= i < polys.len() ==> (#[trigger] polys[i]).values@.len() == n,
        is_ifft_batch_step(polys, step),
        is_ifft_batch_outcome(step, coeffs),
        is_fft_batch_step(coeffs, back),
        is_fft_batch_outcome(back, recovered),
    ensures
        recovered.len() == polys.len(),
        forall|i: int|
            0 <= i < polys.len() ==> fft::same_elements(
                polys[i].values@,
                (#[trigger] recovered[i]).values@,
            ),
{
    lemma_ifft_batch_outcome(polys, n, step, coeffs);
    assert forall|i: int| 0 <= i < coeffs.len() implies (#[trigger] coeffs[i]).coeffs@.len()
        == n by {
        assert(fft::are_values(coeffs[i].coeffs@, polys[i].values@));
    }
    lemma_fft_batch_outcome(coeffs, n, back, recovered);
    assert forall|i: int| 0 <= i < polys.len() implies fft::same_elements(
        polys[i].values@,
        (#[trigger] recovered[i]).values@,
    ) by {
        assert(fft::are_values(coeffs[i].coeffs@, polys[i].values@));
        fft::lemma_coeffs_determine_values(
            coeffs[i].coeffs@,
            polys[i].values@,
            recovered[i].values@,
        );
    }
}

/// `lde_batch_coset_gpu` leads to the values of each polynomial on the coset in order,
/// wherever the work is done.
pub proof fn lemma_lde_outcome(
    polys: Seq<PolynomialCoeffs>,
    degree: nat,
    rate_bits: usize,
    step: Step<Vec<Vec<GoldilocksField>>, LdeRequest>,
    values: Seq<Vec<GoldilocksField>>,
)
    requires
        bits::is_power_of_two(degree),
        forall|i: int| 0 <= i < polys.len() ==> (#[trigger] polys[i]).coeffs@.len() == degree,
        is_lde_step(polys, rate_bits, step),
        is_lde_outcome(step, values),
    ensures
        values.len() == polys.len(),
        forall|i: int|
            0 <= i < polys.len() ==> {
                &&& (#[trigger] values[i])@.len() == degree * pow2(rate_bits as nat)
                &&& fft::are_values_on_coset(
                    polys[i].coeffs@,
                    values[i]@,
                    goldilocks::MULTIPLICATIVE_GROUP_GENERATOR as int,
                )
            },
{
    let gen = goldilocks::MULTIPLICATIVE_GROUP_GENERATOR as int;
    let size = degree * pow2(rate_bits as nat);
    match step {
        Step::Host(host) => {
            assert(rows::views(values).len() == rows::views(host@).len());
            assert forall|i: int| 0 <= i < polys.len() implies {
                &&& (#[trigger] values[i])@.len() == size
                &&& fft::are_values_on_coset(polys[i].coeffs@, values[i]@, gen)
            } by {
                assert(rows::views(values)[i] == rows::views(host@)[i]);
                assert(host@[i]@ == values[i]@);
                assert(polys[i].coeffs@.len() == degree);
            }
        },
        Step::Device(request) => {
            let reply = choose|reply: Seq<GoldilocksField>|
                {
                    &&& #[trigger] device::lde(request, reply)
                    &&& values.len() == rows::chunk_count(
                        reply.len(),
                        request.output_size as nat,
                    )
                    &&& forall|i: int|
                        0 <= i < values.len() ==> (#[trigger] values[i])@ == rows::chunk(
                            reply,
                            request.output_size as nat,
                            i as nat,
                        )
                };
            assert(polys[0].coeffs@.len() == degree);
            lemma_pow2_pos(bits::log2(degree));
            lemma_coeff_rows_len(polys, degree);
            lemma_lde_as_sent(request, reply, polys.len(), rate_bits);
            lemma_lde_batch_of_reply(polys, reply, degree, size);
            assert forall|i: int| 0 <= i < polys.len() implies {
                &&& (#[trigger] values[i])@.len() == size
                &&& fft::are_values_on_coset(polys[i].coeffs@, values[i]@, gen)
            } by {
                assert(values[i]@ == rows::chunk(reply, size, i as nat));
            }
        },
    }
}

/// What `lde_batch_coset_gpu` gives one polynomial depends neither on the others in the
/// batch nor on where the work is done: it is what the polynomial gets alone.
pub proof fn lemma_lde_batch_is_single(
    polys: Seq<PolynomialCoeffs>,
    degree: nat,
    rate_bits: usize,
    step: Step<Vec<Vec<GoldilocksField>>, LdeRequest>,
    values: Seq<Vec<GoldilocksField>>,
    k: int,
    single_step: Step<Vec<Vec<GoldilocksField>>, LdeRequest>,
    single: Seq<Vec<GoldilocksField>>,
)
    requires
        bits::is_power_of_two(degree),
        forall|i: int| 0 <= i < polys.len() ==> (#[trigger] polys[i]).coeffs@.len() == degree,
        is_lde_step(polys, rate_bits, step),
        is_lde_outcome(step, values),
        0 <= k < polys.len(),
        is_lde_step(polys.subrange(k, k + 1), rate_bits, single_step),
        is_lde_outcome(single_step, single),
    ensures
        values.len() == polys.len(),
        single.len() == 1,
        fft::same_elements(values[k]@, single[0]@),
{
    let alone = polys.subrange(k, k + 1);
    lemma_lde_outcome(polys, degree, rate_bits, step, values);
    assert(alone[0] == polys[k]);
    lemma_lde_outcome(alone, degree, rate_bits, single_step, single);
    assert(values[k]@.len() == single[0]@.len());
    fft::lemma_coset_values_determined(
        polys[k].coeffs@,
        values[k]@,
        single[0]@,
        goldilocks::MULTIPLICATIVE_GROUP_GENERATOR as int,
    );
}

/// Single transforms run on the device from 16384 elements on; batches from four
/// polynomials of that length on; extensions from two polynomials with that many values on.
pub proof fn lemma_where_transforms_run(
    poly: PolynomialCoeffs,
    fft_step: Step<PolynomialValues, NttRequest>,
    values: PolynomialValues,
    ifft_step: Step<PolynomialCoeffs, NttRequest>,
    polys: Seq<PolynomialCoeffs>,
    fft_batch_step: Step<Vec<PolynomialValues>, NttRequest>,
    all_values: Seq<PolynomialValues>,
    ifft_batch_step: Step<Vec<PolynomialCoeffs>, NttRequest>,
    rate_bits: usize,
    lde_step: Step<Vec<Vec<GoldilocksField>>, LdeRequest>,
)
    requires
        is_fft_step(poly, fft_step),
        is_ifft_step(values, ifft_step),
        is_fft_batch_step(polys, fft_batch_step),
        is_ifft_batch_step(all_values, ifft_batch_step),
        is_lde_step(polys, rate_bits, lde_step),
    ensures
        fft_step is Device <==> poly.coeffs@.len() >= 16384,
        ifft_step is Device <==> values.values@.len() >= 16384,
        fft_batch_step is Device <==> polys.len() >= 4 && polys[0].coeffs@.len() >= 16384,
        ifft_batch_step is Device <==> all_values.len() >= 4 && all_values[0].values@.len()
            >= 16384,
        lde_step is Device <==> polys.len() >= 2 && polys[0].coeffs@.len() * pow2(
            rate_bits as nat,
        ) >= 16384,
{
}

/// A request for transforms asks the device to prepare for, and to run, transforms of the
/// length of the polynomials.
pub proof fn lemma_ntt_request_sizes(
    polys: Seq<PolynomialCoeffs>,
    fft_request: NttRequest,
    all_values: Seq<PolynomialValues>,
    ifft_request: NttRequest,
)
    requires
        polys.len() > 0,
        bits::is_power_of_two(polys[0].coeffs@.len()),
        is_fft_batch_step(polys, Step::Device(fft_request)),
        all_values.len() > 0,
        bits::is_power_of_two(all_values[0].values@.len()),
        is_ifft_batch_step(all_values, Step::Device(ifft_request)),
    ensures
        fft_request.n == polys[0].coeffs@.len(),
        pow2(fft_request.lg_n as nat) == polys[0].coeffs@.len(),
        ifft_request.n == all_values[0].values@.len(),
        pow2(ifft_request.lg_n as nat) == all_values[0].values@.len(),
{
}

/// A request for extensions asks the device to prepare for the length of the values, and for
/// as many values as the polynomials have altogether.
pub proof fn lemma_lde_request_sizes(
    polys: Seq<PolynomialCoeffs>,
    rate_bits: usize,
    request: LdeRequest,
)
    requires
        polys.len() > 0,
        bits::is_power_of_two(polys[0].coeffs@.len()),
        is_lde_step(polys, rate_bits, Step::Device(request)),
    ensures
        pow2(request.lg_input as nat) == polys[0].coeffs@.len(),
        pow2(request.lg_output as nat) == request.output_size,
        request.output_size == polys[0].coeffs@.len() * pow2(rate_bits as nat),
        request.output_len == polys.len() * request.output_size,
{
    lemma_pow2_adds(bits::log2(polys[0].coeffs@.len()), rate_bits as nat);
}

/// On the host, the polynomials of a batch may differ in length: each is transformed by its
/// own.
pub proof fn lemma_host_batch_values(
    polys: Seq<PolynomialCoeffs>,
    values: Vec<PolynomialValues>,
    i: int,
    lg: nat,
)
    requires
        is_fft_batch_step(polys, Step::Host(values)),
        0 <= i < polys.len(),
        lg <= 32,
        polys[i].coeffs@.len() == pow2(lg),
    ensures
        values@.len() == polys.len(),
        values@[i].values@.len() == pow2(lg),
        forall|k: int|
            0 <= k < pow2(lg) ==> ((#[trigger] values@[i].values@[k]).0 - fft::power_sum(
                polys[i].coeffs@,
                1 * pow(7277203076849721926, k as nat * pow2((32 - lg) as nat)),
                pow2(lg),
            )) % 18446744069414584321 == 0,
{
    assert(fft::are_values(polys[i].coeffs@, values@[i].values@));
    fft::lemma_values_are_power_sums(polys[i].coeffs@, values@[i].values@, 1, lg);
}

/// On the host, the polynomials of a batch may differ in length: each is interpolated by its
/// own.
pub proof fn lemma_host_batch_coeffs(
    polys: Seq<PolynomialValues>,
    coeffs: Vec<PolynomialCoeffs>,
    i: int,
    lg: nat,
)
    requires
        is_ifft_batch_step(polys, Step::Host(coeffs)),
        0 <= i < polys.len(),
        lg <= 32,
        polys[i].values@.len() == pow2(lg),
    ensures
        coeffs@.len() == polys.len(),
        coeffs@[i].coeffs@.len() == pow2(lg),
        forall|k: int|
            0 <= k < pow2(lg) ==> ((#[trigger] polys[i].values@[k]).0 - fft::power_sum(
                coeffs@[i].coeffs@,
                1 * pow(7277203076849721926, k as nat * pow2((32 - lg) as nat)),
                pow2(lg),
            )) % 18446744069414584321 == 0,
{
    assert(fft::are_values(coeffs@[i].coeffs@, polys[i].values@));
    fft::lemma_values_are_power_sums(coeffs@[i].coeffs@, polys[i].values@, 1, lg);
}

/// On the host, the polynomials of a batch may differ in length: each is extended by its own.
pub proof fn lemma_host_batch_lde(
    polys: Seq<PolynomialCoeffs>,
    rate_bits: usize,
    values: Vec<Vec<GoldilocksField>>,
    i: int,
    lg: nat,
)
    requires
        is_lde_step(polys, rate_bits, Step::Host(values)),
        0 <= i < polys.len(),
        lg <= 32,
        polys[i].coeffs@.len() * pow2(rate_bits as nat) == pow2(lg),
    ensures
        values@.len() == polys.len(),
        values@[i]@.len() == pow2(lg),
        forall|k: int|
            0 <= k < pow2(lg) ==> ((#[trigger] values@[i]@[k]).0 - fft::power_sum(
                polys[i].coeffs@,
                14293326489335486720 * pow(
                    7277203076849721926,
                    k as nat * pow2((32 - lg) as nat),
                ),
                polys[i].coeffs@.len(),
            )) % 18446744069414584321 == 0,
{
    assert(values@[i]@.len() == pow2(lg));
    fft::lemma_values_are_power_sums(polys[i].coeffs@, values@[i]@, 14293326489335486720, lg);
}

/// `finish_ifft_gpu` divides by `2^lg_n`: each element times `2^lg_n` is the element of the
/// reply, modulo `2^64 - 2^32 + 1`.
pub proof fn lemma_scaled_down_meaning(
    s: Seq<GoldilocksField>,
    scaled: Seq<GoldilocksField>,
    lg_n: nat,
)
    requires
        is_scaled_down(s, scaled, lg_n),
    ensures
        scaled.len() == s.len(),
        forall|i: int|
            0 <= i < s.len() ==> ((#[trigger] scaled[i]).0 * pow2(lg_n) - s[i].0)
                % 18446744069414584321 == 0,
{
    assert forall|i: int| 0 <= i < s.len() implies ((#[trigger] scaled[i]).0 * pow2(lg_n) - s[i].0)
        % 18446744069414584321 == 0 by {
        let e = pow2(lg_n) as int;
        let a = scaled[i].0 as int;
        let b = s[i].0 as int;
        modular::lemma_cong_mod(a);
        modular::lemma_cong_mod(b);
        modular::lemma_cong_mul(scaled[i].val(), a, e, e);
        assert(modular::cong(scaled[i].val() * e, s[i].val()));
        modular::lemma_cong_meaning(a * e, b);
    }
}

/// The inverse transform without the division by the length gives each coefficient times
/// the length, modulo `2^64 - 2^32 + 1`.
pub proof fn lemma_unscaled_inverse_meaning(
    coeffs: Seq<GoldilocksField>,
    values: Seq<GoldilocksField>,
    sums: Seq<GoldilocksField>,
    lg: nat,
)
    requires
        lg <= 32,
        values.len() == pow2(lg),
        fft::are_values(coeffs, values),
        is_unscaled_inverse(values, sums),
    ensures
        sums.len() == coeffs.len(),
        forall|k: int|
            0 <= k < sums.len() ==> ((#[trigger] sums[k]).0 - pow2(lg) * coeffs[k].0)
                % 18446744069414584321 == 0,
{
    let w = roots::root_of_unity(lg);
    let u = roots::inverse_root(lg);
    let cv = polynomial::vals(coeffs);
    let vv = polynomial::vals(values);
    let sv = polynomial::vals(sums);
    let tv = roots::transform(cv, w);
    let e = pow2(lg) as int;
    bits::lemma_log2_pow2(lg);
    roots::lemma_inverse_root(lg);
    assert forall|k: int| 0 <= k < vv.len() implies modular::cong(#[trigger] vv[k], tv[k]) by {
        lemma_mul_basics(pow(w, k as nat));
    }
    assert forall|k: int| 0 <= k < sums.len() implies ((#[trigger] sums[k]).0 - pow2(lg)
        * coeffs[k].0) % 18446744069414584321 == 0 by {
        let x = pow(u, k as nat);
        lemma_mul_basics(x);
        assert(modular::cong(sv[k], polynomial::eval(vv, 1 * x)));
        polynomial::lemma_eval_cong(vv, tv, x, x);
        roots::lemma_transform_inverse(cv, w, u, lg, k as nat);
        modular::lemma_cong_mod(sums[k].0 as int);
        modular::lemma_cong_mod(coeffs[k].0 as int);
        modular::lemma_cong_mul(e, e, cv[k], coeffs[k].0 as int);
        modular::lemma_cong_meaning(sums[k].0 as int, e * coeffs[k].0);
    }
}

/// `fft_gpu` in plain arithmetic, wherever the work is done: value `k` is the sum of the
/// coefficients times the powers of `g^(k * 2^(32 - lg))`.
pub proof fn lemma_fft_gpu_values(
    poly: PolynomialCoeffs,
    lg: nat,
    step: Step<PolynomialValues, NttRequest>,
    values: Seq<GoldilocksField>,
)
    requires
        lg <= 32,
        poly.coeffs@.len() == pow2(lg),
        is_fft_step(poly, step),
        is_fft_outcome(step, values),
    ensures
        values.len() == poly.coeffs@.len(),
        forall|k: int|
            0 <= k < values.len() ==> ((#[trigger] values[k]).0 - fft::power_sum(
                poly.coeffs@,
                1 * pow(7277203076849721926, k as nat * pow2((32 - lg) as nat)),
                poly.coeffs@.len(),
            )) % 18446744069414584321 == 0,
{
    bits::lemma_log2_pow2(lg);
    lemma_fft_outcome(poly, step, values);
    fft::lemma_values_are_power_sums(poly.coeffs@, values, 1, lg);
}

/// `ifft_gpu` in plain arithmetic, wherever the work is done: the sum of the coefficients
/// times the powers of `g^(k * 2^(32 - lg))` is value `k`.
pub proof fn lemma_ifft_gpu_coeffs(
    poly: PolynomialValues,
    lg: nat,
    step: Step<PolynomialCoeffs, NttRequest>,
    coeffs: Seq<GoldilocksField>,
)
    requires
        lg <= 32,
        poly.values@.len() == pow2(lg),
        is_ifft_step(poly, step),
        is_ifft_outcome(step, coeffs),
    ensures
        coeffs.len() == poly.values@.len(),
        forall|k: int|
            0 <= k < coeffs.len() ==> ((#[trigger] poly.values@[k]).0 - fft::power_sum(
                coeffs,
                1 * pow(7277203076849721926, k as nat * pow2((32 - lg) as nat)),
                coeffs.len(),
            )) % 18446744069414584321 == 0,
{
    bits::lemma_log2_pow2(lg);
    lemma_ifft_outcome(poly, step, coeffs);
    fft::lemma_values_are_power_sums(coeffs, poly.values@, 1, lg);
}

/// `fft_batch_gpu` in plain arithmetic, polynomial by polynomial, wherever the work is done.
pub proof fn lemma_fft_batch_gpu_values(
    polys: Seq<PolynomialCoeffs>,
    lg: nat,
    step: Step<Vec<PolynomialValues>, NttRequest>,
    values: Seq<PolynomialValues>,
    i: int,
)
    requires
        lg <= 32,
        forall|j: int| 0 <= j < polys.len() ==> (#[trigger] polys[j]).coeffs@.len() == pow2(lg),
        is_fft_batch_step(polys, step),
        is_fft_batch_outcome(step, values),
        0 <= i < polys.len(),
    ensures
        values.len() == polys.len(),
        values[i].values@.len() == pow2(lg),
        forall|k: int|
            0 <= k < pow2(lg) ==> ((#[trigger] values[i].values@[k]).0 - fft::power_sum(
                polys[i].coeffs@,
                1 * pow(7277203076849721926, k as nat * pow2((32 - lg) as nat)),
                pow2(lg),
            )) % 18446744069414584321 == 0,
{
    bits::lemma_log2_pow2(lg);
    lemma_fft_batch_outcome(polys, pow2(lg), step, values);
    assert(fft::are_values(polys[i].coeffs@, values[i].values@));
    assert(polys[i].coeffs@.len() == pow2(lg));
    fft::lemma_values_are_power_sums(polys[i].coeffs@, values[i].values@, 1, lg);
}

/// `ifft_batch_gpu` in plain arithmetic, polynomial by polynomial, wherever the work is done.
pub proof fn lemma_ifft_batch_gpu_coeffs(
    polys: Seq<PolynomialValues>,
    lg: nat,
    step: Step<Vec<PolynomialCoeffs>, NttRequest>,
    coeffs: Seq<PolynomialCoeffs>,
    i: int,
)
    requires
        lg <= 32,
        forall|j: int| 0 <= j < polys.len() ==> (#[trigger] polys[j]).values@.len() == pow2(lg),
        is_ifft_batch_step(polys, step),
        is_ifft_batch_outcome(step, coeffs),
        0 <= i < polys.len(),
    ensures
        coeffs.len() == polys.len(),
        coeffs[i].coeffs@.len() == pow2(lg),
        forall|k: int|
            0 <= k < pow2(lg) ==> ((#[trigger] polys[i].values@[k]).0 - fft::power_sum(
                coeffs[i].coeffs@,
                1 * pow(7277203076849721926, k as nat * pow2((32 - lg) as nat)),
                pow2(lg),
            )) % 18446744069414584321 == 0,
{
    bits::lemma_log2_pow2(lg);
    lemma_ifft_batch_outcome(polys, pow2(lg), step, coeffs);
    assert(fft::are_values(coeffs[i].coeffs@, polys[i].values@));
    assert(polys[i].values@.len() == pow2(lg));
    fft::lemma_values_are_power_sums(coeffs[i].coeffs@, polys[i].values@, 1, lg);
}

/// `lde_batch_coset_gpu` in plain arithmetic, wherever the work is done and for every rate:
/// value `k` of a polynomial with `2^lg` coefficients is the sum of its coefficients times
/// the powers of `shift * g^(k * 2^(32 - lg - rate_bits))`, with the generator of the
/// multiplicative group as `shift`.
pub proof fn lemma_lde_batch_coset_gpu_values(
    polys: Seq<PolynomialCoeffs>,
    lg: nat,
    rate_bits: usize,
    step: Step<Vec<Vec<GoldilocksField>>, LdeRequest>,
    values: Seq<Vec<GoldilocksField>>,
    i: int,
)
    requires
        lg + rate_bits <= 32,
        forall|j: int| 0 <= j < polys.len() ==> (#[trigger] polys[j]).coeffs@.len() == pow2(lg),
        is_lde_step(polys, rate_bits, step),
        is_lde_outcome(step, values),
        0 <= i < polys.len(),
    ensures
        values.len() == polys.len(),
        values[i]@.len() == pow2(lg + rate_bits as nat),
        forall|k: int|
            0 <= k < values[i]@.len() ==> ((#[trigger] values[i]@[k]).0 - fft::power_sum(
                polys[i].coeffs@,
                14293326489335486720 * pow(
                    7277203076849721926,
                    k as nat * pow2((32 - (lg + rate_bits)) as nat),
                ),
                pow2(lg),
            )) % 18446744069414584321 == 0,
{
    bits::lemma_log2_pow2(lg);
    lemma_lde_outcome(polys, pow2(lg), rate_bits, step, values);
    assert(values[i]@.len() == pow2(lg) * pow2(rate_bits as nat));
    lemma_pow2_adds(lg, rate_bits as nat);
    assert(polys[i].coeffs@.len() == pow2(lg));
    fft::lemma_values_are_power_sums(
        polys[i].coeffs@,
        values[i]@,
        14293326489335486720,
        lg + rate_bits as nat,
    );
}

} // verus!
