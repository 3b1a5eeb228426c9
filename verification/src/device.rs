//! What a right device makes of a request, as a function of the request as it is sent.
use vstd::prelude::*;
use vstd::arithmetic::power::*;
use vstd::arithmetic::power2::*;
use crate::bits;
use crate::fft;
use crate::fft_gpu;
use crate::fft_gpu::{LdeRequest, NTTConfig, NTTInputOutputOrder, NTTType, NttRequest};
use crate::goldilocks::{GoldilocksField, RichField};
use crate::hasher::{Hasher, HasherType};
use crate::merkle_device::MerkleRequest;
use crate::merkle_layout;
use crate::transpose_gpu::TransposeRequest;

verus! {

/// Run `i` of `2^lg` elements in natural order, out of a buffer that holds each run in
/// natural or in bit-reversed order.
pub open spec fn run(s: Seq<GoldilocksField>, lg: nat, i: nat, reversed: bool) -> Seq<
    GoldilocksField,
> {
    Seq::new(
        pow2(lg),
        |j: int|
            s[i * pow2(lg) + if reversed {
                bits::bit_reverse(j as nat, lg) as int
            } else {
                j
            }],
    )
}

/// The device takes its inputs in bit-reversed order.
pub open spec fn reads_reversed(cfg: NTTConfig) -> bool {
    cfg.order == NTTInputOutputOrder::RN || cfg.order == NTTInputOutputOrder::RR
}

/// The device leaves its outputs in bit-reversed order.
pub open spec fn writes_reversed(cfg: NTTConfig) -> bool {
    cfg.order == NTTInputOutputOrder::NR || cfg.order == NTTInputOutputOrder::RR
}

/// One device works on buffers of the host, which hold nothing but the data.
pub open spec fn is_host_run(cfg: NTTConfig) -> bool {
    &&& cfg.ntt_type == NTTType::Standard
    &&& !cfg.are_inputs_on_device
    &&& !cfg.are_outputs_on_device
    &&& !cfg.is_multi_gpu
    &&& cfg.salt_size == 0
}

/// The factor of the points at which the device evaluates.
pub open spec fn point_factor(cfg: NTTConfig) -> int {
    if cfg.with_coset {
        14293326489335486720
    } else {
        1
    }
}

/// `reply` is what a right device turns the buffer of a request for forward transforms into:
/// the values of each of `cfg.batches` runs of `2^lg_n` coefficients, in the orders that the
/// configuration names. The device counts runs in 32 bits.
pub open spec fn ntt(request: NttRequest, reply: Seq<GoldilocksField>) -> bool {
    let lg = request.lg_n as nat;
    &&& request.buffer@.len() <= 0xFFFF_FFFF * pow2(lg)
    &&& reply.len() == request.buffer@.len()
    &&& is_host_run(request.cfg) && request.cfg.extension_rate_bits == 0 ==> forall|i: nat|
        i < request.cfg.batches ==> fft::are_values_on_coset(
            run(request.buffer@, lg, i, reads_reversed(request.cfg)),
            #[trigger] run(reply, lg, i, writes_reversed(request.cfg)),
            point_factor(request.cfg),
        )
}

/// `reply` is what a right device turns the buffer of a request for inverse transforms into:
/// the inverse, without the division by the length, of each of `cfg.batches` runs of
/// `2^lg_n` values, in the orders that the configuration names.
pub open spec fn intt(request: NttRequest, reply: Seq<GoldilocksField>) -> bool {
    let lg = request.lg_n as nat;
    &&& request.buffer@.len() <= 0xFFFF_FFFF * pow2(lg)
    &&& reply.len() == request.buffer@.len()
    &&& is_host_run(request.cfg) && request.cfg.extension_rate_bits == 0
        && !request.cfg.with_coset ==> forall|i: nat|
        i < request.cfg.batches ==> fft_gpu::is_unscaled_inverse(
            run(request.buffer@, lg, i, reads_reversed(request.cfg)),
            #[trigger] run(reply, lg, i, writes_reversed(request.cfg)),
        )
}

/// `reply` is what a right device fills the output of a request for low-degree extensions
/// with: for each of `cfg.batches` runs of `2^lg_input` coefficients its values at
/// `2^(lg_input + cfg.extension_rate_bits)` points, on the coset where the configuration
/// asks for it, in the orders that it names.
pub open spec fn lde(request: LdeRequest, reply: Seq<GoldilocksField>) -> bool {
    let lg = request.lg_input as nat;
    let lg_out = lg + request.cfg.extension_rate_bits as nat;
    &&& request.input@.len() <= 0xFFFF_FFFF * pow2(lg)
    &&& reply.len() == request.output_len
    &&& is_host_run(request.cfg) ==> forall|i: nat|
        i < request.cfg.batches ==> fft::are_values_on_coset(
            run(request.input@, lg, i, reads_reversed(request.cfg)),
            #[trigger] run(reply, lg_out, i, writes_reversed(request.cfg)),
            point_factor(request.cfg),
        )
}

/// Word `column` of row `row` of a matrix whose rows have `width` words and stand one after
/// the other.
pub open spec fn entry(words: Seq<u64>, width: nat, row: nat, column: nat) -> u64 {
    words[(row * width + column) as int]
}

/// `output` is what a right device fills the output of a request for a transposition with:
/// word `i` of row `k` is word `bit_rev(k)` of row `i` of the input.
pub open spec fn transpose(request: TransposeRequest, output: Seq<u64>) -> bool {
    let n = pow2(request.lg_n as nat);
    let batches = request.cfg.batches as nat;
    &&& request.input@.len() <= 0xFFFF_FFFF * n
    &&& output.len() == request.output_len
    &&& !request.cfg.are_inputs_on_device && !request.cfg.are_outputs_on_device
        ==> forall|k: nat, i: nat|
        k < n && i < batches ==> #[trigger] entry(output, batches, k, i) == entry(
            request.input@,
            n,
            i,
            bits::bit_reverse(k, request.lg_n as nat),
        )
}

/// The number by which the device knows a family of hash functions.
pub open spec fn hash_number(hasher_type: HasherType) -> u64 {
    match hasher_type {
        HasherType::Poseidon => 0,
        HasherType::Keccak => 1,
        HasherType::PoseidonBN128 => 2,
    }
}

/// The digest whose bytes are the first bytes of words `4 * p` to `4 * p + 3`, the lowest
/// byte of each word first.
pub open spec fn stored_digest<F, H: Hasher<F>>(words: Seq<u64>, p: int) -> H::Hash {
    H::spec_hash_from_bytes(
        Seq::new(
            H::spec_hash_size(),
            |b: int| ((words[4 * p + b / 8] as int / pow(256, (b % 8) as nat)) % 256) as u8,
        ),
    )
}

/// The leaves that the device reads out of a request.
pub open spec fn request_leaves<F: RichField>(request: MerkleRequest) -> Seq<Seq<F>> {
    Seq::new(
        request.leaves_count as nat,
        |i: int|
            Seq::new(
                request.leaf_size as nat,
                |j: int| F::spec_from_canonical(request.leaves@[i * request.leaf_size + j]),
            ),
    )
}

/// Where the device puts digest `pos` of height `level` of subtree `subtree`: subtree after
/// subtree, each with its `2^(layers + 1) - 2` digests, the two below the root first.
pub open spec fn digest_place(layers: nat, subtree: nat, level: nat, pos: nat) -> int {
    subtree * (pow2(layers + 1) - 2) + (pow2((layers - level) as nat) - 2) + pos
}

/// The words are what a right device fills the buffers of a request for a tree with: the
/// roots of all runs of `2^level` leaves, below the cap in the places of the linear layout,
/// as far as the buffers go.
pub open spec fn merkle<F: RichField, H: Hasher<F>>(
    request: MerkleRequest,
    digest_words: Seq<u64>,
    cap_words: Seq<u64>,
) -> bool {
    let leaves = request_leaves::<F>(request);
    let subtrees = pow2(request.cap_height as nat);
    let layers = bits::log2(request.leaves_count as nat / subtrees);
    &&& digest_words.len() == request.digests_size
    &&& cap_words.len() == request.caps_size
    &&& request.hash_type == hash_number(H::spec_hasher_type()) ==> {
        &&& forall|subtree: nat, level: nat, pos: nat|
            {
                &&& subtree < subtrees
                &&& level < layers
                &&& pos < pow2((layers - level) as nat)
                &&& digest_place(layers, subtree, level, pos) < request.digests_len
                &&& 4 * digest_place(layers, subtree, level, pos) + 4 <= digest_words.len()
            } ==> {
                let place = #[trigger] digest_place(layers, subtree, level, pos);
                let i = subtree * pow2((layers - level) as nat) + pos;
                stored_digest::<F, H>(digest_words, place) == merkle_layout::root_by_halves::<F, H>(
                    leaves.subrange((i * pow2(level)) as int, ((i + 1) * pow2(level)) as int),
                )
            }
        &&& forall|subtree: nat|
            subtree < subtrees && subtree < request.cap_len && 4 * subtree + 4
                <= cap_words.len() ==> #[trigger] stored_digest::<F, H>(cap_words, subtree as int)
                == merkle_layout::root_by_halves::<F, H>(
                leaves.subrange(
                    (subtree * pow2(layers)) as int,
                    ((subtree + 1) * pow2(layers)) as int,
                ),
            )
    }
}

} // verus!
