//! Transposition of a matrix together with the bit reversal of its rows.
use vstd::prelude::*;
use vstd::arithmetic::mul::*;
use vstd::arithmetic::power2::*;
use crate::bits;
use crate::device;
use crate::fft_gpu;
use crate::gpu::Step;
use crate::goldilocks;
use crate::goldilocks::RichField;
use crate::rows;

verus! {

/// Smallest row length for which the device is faster than the host.
pub const MIN_GPU_TRANSPOSE_SIZE: usize = 4096;

/// Largest row length for which the device is faster than the host.
pub const MAX_GPU_TRANSPOSE_SIZE: usize = 8192;

/// How the device is to run a transposition.
#[derive(Copy, Clone, Debug, PartialEq, Eq, Structural)]
pub struct TransposeConfig {
    /// The number of rows.
    pub batches: u32,
    pub are_inputs_on_device: bool,
    pub are_outputs_on_device: bool,
}

/// A transposition for the device.
#[derive(Clone, Debug)]
pub struct TransposeRequest {
    /// The rows in canonical form, one after the other.
    pub input: Vec<u64>,
    /// The number of words that come back.
    pub output_len: usize,
    /// The number of rows.
    pub batch_size: usize,
    /// The length of a row, `2^lg_n`.
    pub n: usize,
    pub lg_n: usize,
    pub cfg: TransposeConfig,
}

/// A transposition of `batch_size` rows of `n` elements belongs on the device.
pub open spec fn is_device_transpose(n: nat, batch_size: nat) -> bool {
    MIN_GPU_TRANSPOSE_SIZE <= n <= MAX_GPU_TRANSPOSE_SIZE && batch_size >= 2
}

/// Whether a transposition of `batch_size` rows of `n` elements belongs on the device.
pub fn should_use_gpu_transpose(n: usize, batch_size: usize) -> (r: bool)
    ensures
        r == is_device_transpose(n as nat, batch_size as nat),
        r == (4096 <= n <= 8192 && batch_size >= 2),
{
    n >= MIN_GPU_TRANSPOSE_SIZE && n <= MAX_GPU_TRANSPOSE_SIZE && batch_size >= 2
}

/// `result` is the transpose of the first `n` columns of `matrix` with its rows in
/// bit-reversed order.
pub open spec fn is_reversed_transpose<T>(
    matrix: Seq<Vec<T>>,
    n: nat,
    result: Seq<Vec<T>>,
) -> bool {
    &&& result.len() == n
    &&& forall|i: int| 0 <= i < n ==> (#[trigger] result[i])@.len() == matrix.len()
    &&& forall|i: int, b: int|
        0 <= i < n && 0 <= b < matrix.len() ==> #[trigger] result[i]@[b]
            == matrix[b]@[bits::bit_reverse(i as nat, bits::log2(n)) as int]
}

/// Transposes on the host and puts the rows into bit-reversed order.
///
/// The length of the first row is the number of columns.
pub fn transpose_and_reverse_cpu<T: Copy>(matrix: &[Vec<T>]) -> (r: Vec<Vec<T>>)
    requires
        matrix@.len() > 0 ==> bits::is_power_of_two(matrix@[0]@.len()),
        forall|b: int| 0 <= b < matrix@.len() ==> (#[trigger] matrix@[b])@.len()
            >= matrix@[0]@.len(),
    ensures
        matrix@.len() == 0 ==> r@.len() == 0,
        matrix@.len() > 0 ==> is_reversed_transpose(matrix@, matrix@[0]@.len(), r@),
{
    if matrix.len() == 0 {
        return Vec::new();
    }
    let n: usize = matrix[0].len();
    let lg_n: usize = bits::log2_strict(n);
    let batch_size: usize = matrix.len();
    let mut result: Vec<Vec<T>> = Vec::new();
    let mut i: usize = 0;
    while i < n
        invariant
            i <= n,
            n == pow2(lg_n as nat),
            batch_size == matrix@.len(),
            forall|b: int| 0 <= b < matrix@.len() ==> (#[trigger] matrix@[b])@.len() >= n,
            result@.len() == i,
            forall|k: int| 0 <= k < i ==> (#[trigger] result@[k])@.len() == batch_size,
            forall|k: int, b: int|
                0 <= k < i && 0 <= b < batch_size ==> #[trigger] result@[k]@[b]
                    == matrix@[b]@[bits::bit_reverse(k as nat, lg_n as nat) as int],
        decreases n - i,
    {
        proof {
            bits::lemma_bit_reverse_bound(i as nat, lg_n as nat);
        }
        let column: usize = bits::reverse_bits(i, lg_n);
        let mut row: Vec<T> = Vec::new();
        let mut b: usize = 0;
        while b < batch_size
            invariant
                b <= batch_size,
                batch_size == matrix@.len(),
                column < n,
                forall|k: int| 0 <= k < matrix@.len() ==> (#[trigger] matrix@[k])@.len() >= n,
                row@.len() == b,
                forall|k: int| 0 <= k < b ==> #[trigger] row@[k] == matrix@[k]@[column as int],
            decreases batch_size - b,
        {
            let source = &matrix[b];
            row.push(source[column]);
            b = b + 1;
        }
        result.push(row);
        i = i + 1;
    }
    result
}

/// The request for the transposition of `matrix`, whose first row gives the number of
/// columns.
pub open spec fn is_transpose_request<F: RichField>(
    matrix: Seq<Vec<F>>,
    request: TransposeRequest,
) -> bool {
    &&& request.input@ == goldilocks::canonical_words(rows::flattened(rows::views(matrix)))
    &&& forall|i: int| 0 <= i < request.input@.len() ==> (#[trigger] request.input@[i])
        < F::spec_order()
    &&& request.output_len == matrix[0]@.len() * matrix.len()
    &&& request.batch_size == matrix.len()
    &&& request.n == matrix[0]@.len()
    &&& request.lg_n == bits::log2(matrix[0]@.len())
    &&& request.cfg == (TransposeConfig {
        batches: matrix.len() as u32,
        are_inputs_on_device: false,
        are_outputs_on_device: false,
    })
}

/// A matrix without rows needs no device; any other goes there with the request.
pub open spec fn is_transpose_rev_step<F: RichField>(
    matrix: Seq<Vec<F>>,
    step: Step<Vec<Vec<F>>, TransposeRequest>,
) -> bool {
    match step {
        Step::Host(result) => matrix.len() == 0 && result@.len() == 0,
        Step::Device(request) => matrix.len() > 0 && is_transpose_request(matrix, request),
    }
}

/// The request for a transposition on the device. A matrix without rows needs none.
///
/// The length of the first row is the number of columns.
pub fn transpose_rev_gpu<F: RichField>(matrix: &[Vec<F>]) -> (r: Step<
    Vec<Vec<F>>,
    TransposeRequest,
>)
    requires
        matrix@.len() > 0 ==> bits::is_power_of_two(matrix@[0]@.len()) && matrix@[0]@.len()
            * matrix@.len() <= usize::MAX,
    ensures
        is_transpose_rev_step(matrix@, r),
{
    let batch_size: usize = matrix.len();
    if batch_size == 0 {
        return Step::Host(Vec::new());
    }
    let n: usize = matrix[0].len();
    let lg_n: usize = bits::log2_strict(n);
    let flat = rows::flatten(matrix);
    let input = goldilocks::to_canonical_words(flat.as_slice());
    let cfg = TransposeConfig {
        batches: batch_size as u32,
        are_inputs_on_device: false,
        are_outputs_on_device: false,
    };
    Step::Device(TransposeRequest { input, output_len: n * batch_size, batch_size, n, lg_n, cfg })
}

/// Reads `n` rows of `batch_size` elements out of the words that the device handed back.
pub fn finish_transpose_rev_gpu<F: RichField>(
    output: &[u64],
    n: usize,
    batch_size: usize,
) -> (r: Vec<Vec<F>>)
    requires
        output@.len() >= n * batch_size,
    ensures
        is_finished_transpose(output@, n as nat, batch_size as nat, r@),
        r@.len() == n,
        forall|i: int| 0 <= i < n ==> (#[trigger] r@[i])@.len() == batch_size,
        forall|i: int, j: int|
            0 <= i < n && 0 <= j < batch_size ==> #[trigger] r@[i]@[j] == F::spec_from_canonical(
                output@[i * batch_size + j],
            ),
        forall|i: int, j: int|
            0 <= i < n && 0 <= j < batch_size && output@[i * batch_size + j] < F::spec_order()
                ==> (#[trigger] r@[i]@[j]).spec_canonical() == output@[i * batch_size + j],
{
    let total: usize = output.len();
    let mut result: Vec<Vec<F>> = Vec::new();
    let mut i: usize = 0;
    while i < n
        invariant
            i <= n,
            total == output@.len(),
            total >= n * batch_size,
            result@.len() == i,
            forall|k: int| 0 <= k < i ==> (#[trigger] result@[k])@.len() == batch_size,
            forall|k: int, j: int|
                0 <= k < i && 0 <= j < batch_size ==> #[trigger] result@[k]@[j]
                    == F::spec_from_canonical(output@[k * batch_size + j]),
            forall|k: int, j: int|
                0 <= k < i && 0 <= j < batch_size && output@[k * batch_size + j]
                    < F::spec_order() ==> (#[trigger] result@[k]@[j]).spec_canonical()
                    == output@[k * batch_size + j],
        decreases n - i,
    {
        proof {
            lemma_mul_inequality((i + 1) as int, n as int, batch_size as int);
            lemma_mul_is_distributive_add_other_way(batch_size as int, i as int, 1);
            lemma_mul_nonnegative(i as int, batch_size as int);
        }
        let mut row: Vec<F> = Vec::new();
        let mut j: usize = 0;
        while j < batch_size
            invariant
                j <= batch_size,
                total == output@.len(),
                0 <= i * batch_size,
                i * batch_size + batch_size <= total,
                row@.len() == j,
                forall|k: int|
                    0 <= k < j ==> #[trigger] row@[k] == F::spec_from_canonical(
                        output@[i * batch_size + k],
                    ),
                forall|k: int|
                    0 <= k < j && output@[i * batch_size + k] < F::spec_order() ==> (
                    #[trigger] row@[k]).spec_canonical() == output@[i * batch_size + k],
            decreases batch_size - j,
        {
            row.push(F::from_canonical_u64(output[i * batch_size + j]));
            j = j + 1;
        }
        result.push(row);
        i = i + 1;
    }
    result
}

/// Where a matrix is transposed: on the host with the result, or on the device with the
/// request.
pub open spec fn is_transpose_step<F: RichField>(
    matrix: Seq<Vec<F>>,
    is_goldilocks: bool,
    step: Step<Vec<Vec<F>>, TransposeRequest>,
) -> bool {
    match step {
        Step::Host(result) => {
            &&& matrix.len() == 0 ==> result@.len() == 0
            &&& matrix.len() > 0 ==> !(is_goldilocks && is_device_transpose(
                matrix[0]@.len(),
                matrix.len(),
            )) && is_reversed_transpose(matrix, matrix[0]@.len(), result@)
        },
        Step::Device(request) => {
            &&& matrix.len() > 0
            &&& is_goldilocks
            &&& is_device_transpose(matrix[0]@.len(), matrix.len())
            &&& is_transpose_request(matrix, request)
        },
    }
}

/// Transposes the matrix and puts its rows into bit-reversed order, on the device where
/// that pays. The device works on the Goldilocks field only.
pub fn transpose_and_reverse<F: RichField>(matrix: &[Vec<F>], is_goldilocks: bool) -> (r: Step<
    Vec<Vec<F>>,
    TransposeRequest,
>)
    requires
        matrix@.len() > 0 ==> bits::is_power_of_two(matrix@[0]@.len()),
        matrix@.len() > 0 && is_goldilocks && is_device_transpose(
            matrix@[0]@.len(),
            matrix@.len(),
        ) ==> matrix@[0]@.len() * matrix@.len() <= usize::MAX,
        matrix@.len() > 0 && !(is_goldilocks && is_device_transpose(
            matrix@[0]@.len(),
            matrix@.len(),
        )) ==> forall|b: int|
            0 <= b < matrix@.len() ==> (#[trigger] matrix@[b])@.len() >= matrix@[0]@.len(),
    ensures
        is_transpose_step(matrix@, is_goldilocks, r),
{
    if matrix.len() > 0 {
        let n: usize = matrix[0].len();
        if is_goldilocks && should_use_gpu_transpose(n, matrix.len()) {
            return transpose_rev_gpu(matrix);
        }
    }
    Step::Host(transpose_and_reverse_cpu(matrix))
}

/// Element `j` of row `i` of the matrix stands in row `bit_rev(j)` of the result, at
/// place `i`.
pub proof fn lemma_reversed_transpose_layout<T>(
    matrix: Seq<Vec<T>>,
    n: nat,
    result: Seq<Vec<T>>,
    i: int,
    j: int,
)
    requires
        bits::is_power_of_two(n),
        is_reversed_transpose(matrix, n, result),
        0 <= i < matrix.len(),
        0 <= j < n,
    ensures
        bits::bit_reverse(j as nat, bits::log2(n)) < n,
        result[bits::bit_reverse(j as nat, bits::log2(n)) as int]@[i] == matrix[i]@[j],
{
    let k = bits::bit_reverse(j as nat, bits::log2(n));
    bits::lemma_bit_reverse_bound(j as nat, bits::log2(n));
    bits::lemma_bit_reverse_involution(j as nat, bits::log2(n));
    assert(result[k as int]@[i] == matrix[i]@[bits::bit_reverse(k, bits::log2(n)) as int]);
}

/// The words of a right device: word `i` of row `bit_rev(j)` is element `j` of row `i`
/// of the matrix, in canonical form.
pub open spec fn is_transpose_reply<F: RichField>(
    matrix: Seq<Vec<F>>,
    n: nat,
    output: Seq<u64>,
) -> bool {
    forall|i: int, j: int|
        0 <= i < matrix.len() && 0 <= j < n ==> {
            let word = output[bits::bit_reverse(j as nat, bits::log2(n)) * matrix.len() + i];
            word == (#[trigger] matrix[i]@[j]).spec_canonical() && word < F::spec_order()
        }
}

/// From a right reply of the device, `finish_transpose_rev_gpu` makes the same field
/// elements as the host.
pub proof fn lemma_transpose_of_reply<F: RichField>(
    matrix: Seq<Vec<F>>,
    n: nat,
    output: Seq<u64>,
    device: Seq<Vec<F>>,
    host: Seq<Vec<F>>,
    i: int,
    b: int,
)
    requires
        bits::is_power_of_two(n),
        is_transpose_reply(matrix, n, output),
        forall|k: int, j: int|
            0 <= k < n && 0 <= j < matrix.len() && output[k * matrix.len() + j]
                < F::spec_order() ==> (#[trigger] device[k]@[j]).spec_canonical()
                == output[k * matrix.len() + j],
        is_reversed_transpose(matrix, n, host),
        0 <= i < n,
        0 <= b < matrix.len(),
    ensures
        device[i]@[b].spec_canonical() == host[i]@[b].spec_canonical(),
{
    let lg = bits::log2(n);
    let j = bits::bit_reverse(i as nat, lg);
    bits::lemma_bit_reverse_bound(i as nat, lg);
    bits::lemma_bit_reverse_involution(i as nat, lg);
    let x = matrix[b]@[j as int];
    assert(output[i * matrix.len() + b] == x.spec_canonical());
    assert(device[i]@[b].spec_canonical() == output[i * matrix.len() + b]);
}

/// `result` is the transpose of the first `n` columns of `matrix` with its rows in
/// bit-reversed order, as field elements.
pub open spec fn is_same_transpose<F: RichField>(
    matrix: Seq<Vec<F>>,
    n: nat,
    result: Seq<Vec<F>>,
) -> bool {
    &&& result.len() == n
    &&& forall|i: int| 0 <= i < n ==> (#[trigger] result[i])@.len() == matrix.len()
    &&& forall|i: int, b: int|
        0 <= i < n && 0 <= b < matrix.len() ==> (#[trigger] result[i]@[b]).spec_canonical()
            == matrix[b]@[bits::bit_reverse(i as nat, bits::log2(n)) as int].spec_canonical()
}

/// `result` is what `finish_transpose_rev_gpu` makes of the words of the device.
pub open spec fn is_finished_transpose<F: RichField>(
    output: Seq<u64>,
    n: nat,
    batch_size: nat,
    result: Seq<Vec<F>>,
) -> bool {
    &&& result.len() == n
    &&& forall|i: int| 0 <= i < n ==> (#[trigger] result[i])@.len() == batch_size
    &&& forall|i: int, j: int|
        0 <= i < n && 0 <= j < batch_size && output[i * batch_size + j] < F::spec_order() ==> (
        #[trigger] result[i]@[j]).spec_canonical() == output[i * batch_size + j]
}

/// What `transpose_and_reverse` leads to: the result of the host, or what
/// `finish_transpose_rev_gpu` makes of a right reply of the device.
pub open spec fn is_transpose_outcome<F: RichField>(
    step: Step<Vec<Vec<F>>, TransposeRequest>,
    result: Seq<Vec<F>>,
) -> bool {
    match step {
        Step::Host(host) => result == host@,
        Step::Device(request) => exists|output: Seq<u64>|
            {
                &&& #[trigger] device::transpose(request, output)
                &&& is_finished_transpose(
                    output,
                    request.n as nat,
                    request.batch_size as nat,
                    result,
                )
            },
    }
}

/// What a right device makes of the request for a matrix with rows of `n` elements.
proof fn lemma_transpose_as_sent<F: RichField>(
    matrix: Seq<Vec<F>>,
    n: nat,
    request: TransposeRequest,
    output: Seq<u64>,
)
    requires
        bits::is_power_of_two(n),
        matrix.len() > 0,
        forall|i: int| 0 <= i < matrix.len() ==> (#[trigger] matrix[i])@.len() == n,
        is_transpose_request(matrix, request),
        device::transpose(request, output),
    ensures
        is_transpose_reply(matrix, n, output),
{
    let m = rows::views(matrix);
    let b = matrix.len();
    let lg = bits::log2(n);
    assert(matrix[0]@.len() == n);
    lemma_pow2_pos(lg);
    assert forall|i: int| 0 <= i < m.len() implies (#[trigger] m[i]).len() == n by {
        assert(matrix[i]@.len() == n);
    }
    rows::lemma_chunks_of_flattened(m, n);
    fft_gpu::lemma_runs_counted(request.input@.len(), n, b);
    assert(request.cfg.batches as nat == b);
    assert(pow2(request.lg_n as nat) == n);
    assert forall|i: int, j: int| 0 <= i < b && 0 <= j < n implies {
        let word = output[bits::bit_reverse(j as nat, lg) * b + i];
        word == (#[trigger] matrix[i]@[j]).spec_canonical() && word < F::spec_order()
    } by {
        let k = bits::bit_reverse(j as nat, lg);
        bits::lemma_bit_reverse_bound(j as nat, lg);
        bits::lemma_bit_reverse_involution(j as nat, lg);
        assert(k < pow2(request.lg_n as nat) && i < request.cfg.batches);
        assert(device::entry(output, request.cfg.batches as nat, k, i as nat) == device::entry(
            request.input@,
            pow2(request.lg_n as nat),
            i as nat,
            bits::bit_reverse(k, request.lg_n as nat),
        ));
        rows::lemma_flattened_place(m, n, i, j);
        assert(m[i][j] == matrix[i]@[j]);
    }
}

/// Word `i * n + j` of a request is the canonical form of element `j` of row `i`.
pub proof fn lemma_transpose_request<F: RichField>(
    matrix: Seq<Vec<F>>,
    n: nat,
    request: TransposeRequest,
    i: int,
    j: int,
)
    requires
        forall|r: int| 0 <= r < matrix.len() ==> (#[trigger] matrix[r])@.len() == n,
        is_transpose_request(matrix, request),
        0 <= i < matrix.len(),
        0 <= j < n,
    ensures
        request.input@.len() == matrix.len() * n,
        0 <= i * n + j < request.input@.len(),
        request.input@[i * n + j] == matrix[i]@[j].spec_canonical(),
        request.input@[i * n + j] < F::spec_order(),
        request.output_len == n * matrix.len(),
        request.batch_size == matrix.len(),
        request.n == n,
{
    let m = rows::views(matrix);
    assert forall|r: int| 0 <= r < m.len() implies (#[trigger] m[r]).len() == n by {
        assert(matrix[r]@.len() == n);
    }
    assert(matrix[0]@.len() == n);
    rows::lemma_flattened_place(m, n, i, j);
    assert(m[i][j] == matrix[i]@[j]);
}

/// `transpose_rev_gpu` leads to the transpose with its rows in bit-reversed order: element
/// `j` of row `i` stands in row `bit_rev(j)`, at place `i`, as the same field element.
pub proof fn lemma_transpose_rev_outcome<F: RichField>(
    matrix: Seq<Vec<F>>,
    n: nat,
    step: Step<Vec<Vec<F>>, TransposeRequest>,
    result: Seq<Vec<F>>,
)
    requires
        bits::is_power_of_two(n),
        forall|i: int| 0 <= i < matrix.len() ==> (#[trigger] matrix[i])@.len() == n,
        is_transpose_rev_step(matrix, step),
        is_transpose_outcome(step, result),
    ensures
        matrix.len() == 0 ==> result.len() == 0,
        matrix.len() > 0 ==> result.len() == n,
        matrix.len() > 0 ==> forall|k: int|
            0 <= k < n ==> (#[trigger] result[k])@.len() == matrix.len(),
        forall|i: int, j: int|
            0 <= i < matrix.len() && 0 <= j < n ==> result[bits::bit_reverse(
                j as nat,
                bits::log2(n),
            ) as int]@[i].spec_canonical() == (#[trigger] matrix[i]@[j]).spec_canonical(),
{
    let lg = bits::log2(n);
    if let Step::Device(request) = step {
        let output = choose|output: Seq<u64>|
            {
                &&& #[trigger] device::transpose(request, output)
                &&& is_finished_transpose(
                    output,
                    request.n as nat,
                    request.batch_size as nat,
                    result,
                )
            };
        assert(matrix[0]@.len() == n);
        lemma_transpose_as_sent(matrix, n, request, output);
        assert forall|i: int, j: int| 0 <= i < matrix.len() && 0 <= j < n implies result[
        bits::bit_reverse(j as nat, lg) as int]@[i].spec_canonical() == (
        #[trigger] matrix[i]@[j]).spec_canonical() by {
            let k = bits::bit_reverse(j as nat, lg) as int;
            bits::lemma_bit_reverse_bound(j as nat, lg);
            assert(output[k * matrix.len() + i] == matrix[i]@[j].spec_canonical());
            assert(result[k]@[i].spec_canonical() == output[k * matrix.len() + i]);
        }
    }
}

/// `transpose_and_reverse`, wherever the work is done, puts element `j` of row `i` into row
/// `bit_rev(j)`, at place `i`, as the same field element.
pub proof fn lemma_transpose_and_reverse_places<F: RichField>(
    matrix: Seq<Vec<F>>,
    n: nat,
    is_goldilocks: bool,
    step: Step<Vec<Vec<F>>, TransposeRequest>,
    result: Seq<Vec<F>>,
)
    requires
        bits::is_power_of_two(n),
        forall|i: int| 0 <= i < matrix.len() ==> (#[trigger] matrix[i])@.len() == n,
        is_transpose_step(matrix, is_goldilocks, step),
        is_transpose_outcome(step, result),
    ensures
        matrix.len() == 0 ==> result.len() == 0,
        matrix.len() > 0 ==> result.len() == n,
        matrix.len() > 0 ==> forall|k: int|
            0 <= k < n ==> (#[trigger] result[k])@.len() == matrix.len(),
        forall|i: int, j: int|
            0 <= i < matrix.len() && 0 <= j < n ==> result[bits::bit_reverse(
                j as nat,
                bits::log2(n),
            ) as int]@[i].spec_canonical() == (#[trigger] matrix[i]@[j]).spec_canonical(),
{
    if matrix.len() > 0 {
        assert(matrix[0]@.len() == n);
        match step {
            Step::Host(host) => {
                assert forall|i: int, j: int| 0 <= i < matrix.len() && 0 <= j < n implies result[
                bits::bit_reverse(j as nat, bits::log2(n)) as int]@[i].spec_canonical() == (
                #[trigger] matrix[i]@[j]).spec_canonical() by {
                    lemma_reversed_transpose_layout(matrix, n, host@, i, j);
                }
            },
            Step::Device(request) => {
                lemma_transpose_rev_outcome(matrix, n, step, result);
            },
        }
    }
}

/// A transposition runs on the device for two or more rows of 4096 to 8192 Goldilocks
/// elements.
pub proof fn lemma_where_transposes_run<F: RichField>(
    matrix: Seq<Vec<F>>,
    is_goldilocks: bool,
    step: Step<Vec<Vec<F>>, TransposeRequest>,
)
    requires
        is_transpose_step(matrix, is_goldilocks, step),
    ensures
        step is Device <==> is_goldilocks && matrix.len() >= 2 && 4096 <= matrix[0]@.len() <= 8192,
{
}

/// `transpose_and_reverse` leads to the same field elements as `transpose_and_reverse_cpu`,
/// wherever the work is done.
pub proof fn lemma_transpose_outcome<F: RichField>(
    matrix: Seq<Vec<F>>,
    n: nat,
    is_goldilocks: bool,
    step: Step<Vec<Vec<F>>, TransposeRequest>,
    result: Seq<Vec<F>>,
    host: Seq<Vec<F>>,
)
    requires
        bits::is_power_of_two(n),
        forall|i: int| 0 <= i < matrix.len() ==> (#[trigger] matrix[i])@.len() == n,
        is_transpose_step(matrix, is_goldilocks, step),
        is_transpose_outcome(step, result),
        matrix.len() == 0 ==> host.len() == 0,
        matrix.len() > 0 ==> is_reversed_transpose(matrix, n, host),
    ensures
        result.len() == host.len(),
        matrix.len() > 0 ==> is_same_transpose(matrix, n, result),
        forall|i: int| 0 <= i < host.len() ==> (#[trigger] result[i])@.len() == host[i]@.len(),
        forall|i: int, b: int|
            0 <= i < host.len() && 0 <= b < matrix.len() ==> (
            #[trigger] result[i]@[b]).spec_canonical() == host[i]@[b].spec_canonical(),
{
    if matrix.len() > 0 {
        assert(matrix[0]@.len() == n);
        if let Step::Device(request) = step {
            let output = choose|output: Seq<u64>|
                {
                    &&& #[trigger] device::transpose(request, output)
                    &&& is_finished_transpose(
                        output,
                        request.n as nat,
                        request.batch_size as nat,
                        result,
                    )
                };
            lemma_transpose_as_sent(matrix, n, request, output);
            assert forall|i: int, b: int|
                0 <= i < n && 0 <= b < matrix.len() implies (
            #[trigger] result[i]@[b]).spec_canonical() == host[i]@[b].spec_canonical() by {
                lemma_transpose_of_reply(matrix, n, output, result, host, i, b);
            }
        }
        assert forall|i: int, b: int| 0 <= i < n && 0 <= b < matrix.len() implies (
        #[trigger] result[i]@[b]).spec_canonical() == matrix[b]@[bits::bit_reverse(
            i as nat,
            bits::log2(n),
        ) as int].spec_canonical() by {
            assert(host[i]@[b] == matrix[b]@[bits::bit_reverse(i as nat, bits::log2(n)) as int]);
        }
    }
}

/// Transposing twice puts element `j` of row `i` into row `bit_rev(i)`, at place
/// `bit_rev(j)`.
pub proof fn lemma_transpose_twice<T>(
    matrix: Seq<Vec<T>>,
    n: nat,
    once: Seq<Vec<T>>,
    twice: Seq<Vec<T>>,
)
    requires
        bits::is_power_of_two(n),
        bits::is_power_of_two(matrix.len()),
        is_reversed_transpose(matrix, n, once),
        is_reversed_transpose(once, matrix.len(), twice),
    ensures
        twice.len() == matrix.len(),
        forall|i: int| 0 <= i < twice.len() ==> (#[trigger] twice[i])@.len() == n,
        forall|i: int, j: int|
            0 <= i < matrix.len() && 0 <= j < n ==> twice[bits::bit_reverse(
                i as nat,
                bits::log2(matrix.len()),
            ) as int]@[bits::bit_reverse(j as nat, bits::log2(n)) as int]
                == #[trigger] matrix[i]@[j],
{
    assert forall|i: int, j: int| 0 <= i < matrix.len() && 0 <= j < n implies twice[
    bits::bit_reverse(i as nat, bits::log2(matrix.len())) as int]@[bits::bit_reverse(
        j as nat,
        bits::log2(n),
    ) as int] == #[trigger] matrix[i]@[j] by {
        lemma_reversed_transpose_layout(matrix, n, once, i, j);
        let k = bits::bit_reverse(j as nat, bits::log2(n)) as int;
        lemma_reversed_transpose_layout(once, matrix.len(), twice, k, i);
    }
}

/// Transposing four times gives back the matrix.
pub proof fn lemma_transpose_four_times<T>(
    matrix: Seq<Vec<T>>,
    n: nat,
    once: Seq<Vec<T>>,
    twice: Seq<Vec<T>>,
    thrice: Seq<Vec<T>>,
    fourth: Seq<Vec<T>>,
)
    requires
        bits::is_power_of_two(n),
        bits::is_power_of_two(matrix.len()),
        forall|i: int| 0 <= i < matrix.len() ==> (#[trigger] matrix[i])@.len() == n,
        is_reversed_transpose(matrix, n, once),
        is_reversed_transpose(once, matrix.len(), twice),
        is_reversed_transpose(twice, n, thrice),
        is_reversed_transpose(thrice, matrix.len(), fourth),
    ensures
        rows::views(fourth) == rows::views(matrix),
{
    let b = matrix.len();
    lemma_transpose_twice(matrix, n, once, twice);
    lemma_transpose_twice(twice, n, thrice, fourth);
    assert forall|i: int, j: int| 0 <= i < b && 0 <= j < n implies #[trigger] fourth[i]@[j]
        == matrix[i]@[j] by {
        let x = bits::bit_reverse(i as nat, bits::log2(b));
        let y = bits::bit_reverse(j as nat, bits::log2(n));
        bits::lemma_bit_reverse_bound(i as nat, bits::log2(b));
        bits::lemma_bit_reverse_bound(j as nat, bits::log2(n));
        bits::lemma_bit_reverse_involution(i as nat, bits::log2(b));
        bits::lemma_bit_reverse_involution(j as nat, bits::log2(n));
        assert(twice[x as int]@[y as int] == matrix[i]@[j]);
        assert(fourth[bits::bit_reverse(x, bits::log2(b)) as int]@[bits::bit_reverse(
            y,
            bits::log2(n),
        ) as int] == twice[x as int]@[y as int]);
    }
    assert forall|i: int| 0 <= i < b implies fourth[i]@ == #[trigger] matrix[i]@ by {
        assert(fourth[i]@ =~= matrix[i]@);
    }
    assert(rows::views(fourth) =~= rows::views(matrix));
}

/// Transposing twice, wherever the work is done, puts element `j` of row `i` into row
/// `bit_rev(i)`, at place `bit_rev(j)`.
pub proof fn lemma_same_transpose_twice<F: RichField>(
    matrix: Seq<Vec<F>>,
    n: nat,
    once: Seq<Vec<F>>,
    twice: Seq<Vec<F>>,
)
    requires
        bits::is_power_of_two(n),
        bits::is_power_of_two(matrix.len()),
        is_same_transpose(matrix, n, once),
        is_same_transpose(once, matrix.len(), twice),
    ensures
        twice.len() == matrix.len(),
        forall|i: int| 0 <= i < twice.len() ==> (#[trigger] twice[i])@.len() == n,
        forall|i: int, j: int|
            0 <= i < matrix.len() && 0 <= j < n ==> twice[bits::bit_reverse(
                i as nat,
                bits::log2(matrix.len()),
            ) as int]@[bits::bit_reverse(j as nat, bits::log2(n)) as int].spec_canonical() == (
            #[trigger] matrix[i]@[j]).spec_canonical(),
{
    assert forall|i: int, j: int| 0 <= i < matrix.len() && 0 <= j < n implies twice[
    bits::bit_reverse(i as nat, bits::log2(matrix.len())) as int]@[bits::bit_reverse(
        j as nat,
        bits::log2(n),
    ) as int].spec_canonical() == (#[trigger] matrix[i]@[j]).spec_canonical() by {
        let x = bits::bit_reverse(i as nat, bits::log2(matrix.len()));
        let y = bits::bit_reverse(j as nat, bits::log2(n));
        bits::lemma_bit_reverse_bound(i as nat, bits::log2(matrix.len()));
        bits::lemma_bit_reverse_bound(j as nat, bits::log2(n));
        bits::lemma_bit_reverse_involution(i as nat, bits::log2(matrix.len()));
        bits::lemma_bit_reverse_involution(j as nat, bits::log2(n));
        assert(once[y as int]@[i].spec_canonical() == matrix[i]@[j].spec_canonical());
        assert(twice[x as int]@[y as int].spec_canonical()
            == once[y as int]@[i].spec_canonical());
    }
}

/// Transposing four times, wherever the work is done, gives back the matrix.
pub proof fn lemma_same_transpose_four_times<F: RichField>(
    matrix: Seq<Vec<F>>,
    n: nat,
    once: Seq<Vec<F>>,
    twice: Seq<Vec<F>>,
    thrice: Seq<Vec<F>>,
    fourth: Seq<Vec<F>>,
)
    requires
        bits::is_power_of_two(n),
        bits::is_power_of_two(matrix.len()),
        is_same_transpose(matrix, n, once),
        is_same_transpose(once, matrix.len(), twice),
        is_same_transpose(twice, n, thrice),
        is_same_transpose(thrice, matrix.len(), fourth),
    ensures
        fourth.len() == matrix.len(),
        forall|i: int| 0 <= i < fourth.len() ==> (#[trigger] fourth[i])@.len() == n,
        forall|i: int, j: int|
            0 <= i < matrix.len() && 0 <= j < n ==> (
            #[trigger] fourth[i]@[j]).spec_canonical() == matrix[i]@[j].spec_canonical(),
{
    let b = matrix.len();
    lemma_same_transpose_twice(matrix, n, once, twice);
    lemma_same_transpose_twice(twice, n, thrice, fourth);
    assert forall|i: int, j: int| 0 <= i < b && 0 <= j < n implies (
    #[trigger] fourth[i]@[j]).spec_canonical() == matrix[i]@[j].spec_canonical() by {
        let x = bits::bit_reverse(i as nat, bits::log2(b));
        let y = bits::bit_reverse(j as nat, bits::log2(n));
        bits::lemma_bit_reverse_bound(i as nat, bits::log2(b));
        bits::lemma_bit_reverse_bound(j as nat, bits::log2(n));
        bits::lemma_bit_reverse_involution(i as nat, bits::log2(b));
        bits::lemma_bit_reverse_involution(j as nat, bits::log2(n));
        assert(matrix[i]@[j].spec_canonical() == twice[x as int]@[y as int].spec_canonical());
        assert(fourth[bits::bit_reverse(x, bits::log2(b)) as int]@[bits::bit_reverse(
            y,
            bits::log2(n),
        ) as int].spec_canonical() == twice[x as int]@[y as int].spec_canonical());
    }
}

} // verus!
