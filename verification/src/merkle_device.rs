//! Merkle trees whose digests the device computes.
//!
//! A request holds what the device needs. What it hands back, four words to a digest, is
//! read into a tree on the host.
use vstd::prelude::*;
use vstd::arithmetic::div_mod::*;
use vstd::arithmetic::mul::*;
use vstd::arithmetic::power::*;
use vstd::arithmetic::power2::*;
use crate::bits;
use crate::device;
use crate::goldilocks;
use crate::goldilocks::RichField;
use crate::hasher;
use crate::hasher::{Hasher, HasherType};
use crate::merkle_layout;
use crate::merkle_tree_gpu;
use crate::merkle_tree_gpu::{MerkleCap, MerkleTreeGpu};

verus! {

/// Smallest leaf that the device hashes: a leaf has to be longer than a digest.
pub const MIN_GPU_LEAF_SIZE: usize = 5;

/// Smallest number of leaves for which the device is faster than the host.
pub const MIN_GPU_LEAVES: usize = 1024;

/// Largest number of leaves for which the device is faster than the host: beyond it,
/// moving the data costs more than the device saves.
pub const MAX_GPU_LEAVES: usize = 131072;

/// Number of bytes that the words of a digest hold.
pub const DIGEST_BYTES: usize = 32;

/// Whether a tree of this shape belongs on the device.
pub open spec fn is_device_tree(leaves_count: nat, leaf_size: nat, hasher_type: HasherType) -> bool {
    &&& leaf_size >= MIN_GPU_LEAF_SIZE
    &&& MIN_GPU_LEAVES <= leaves_count <= MAX_GPU_LEAVES
    &&& hasher_type != HasherType::Keccak
}

/// Whether a tree of this shape belongs on the device.
///
/// The device hashes leaves of more than four elements only, and its Keccak may differ
/// from that of the host.
pub fn should_use_gpu_merkle(
    leaves_count: usize,
    leaf_size: usize,
    hasher_type: HasherType,
) -> (r: bool)
    ensures
        r == is_device_tree(leaves_count as nat, leaf_size as nat, hasher_type),
        r == (leaf_size >= 5 && 1024 <= leaves_count <= 131072 && !(hasher_type is Keccak)),
{
    leaf_size >= MIN_GPU_LEAF_SIZE && leaves_count >= MIN_GPU_LEAVES && leaves_count
        <= MAX_GPU_LEAVES && hasher_type != HasherType::Keccak
}

/// What the device needs to fill the digests and the cap of a tree.
#[derive(Clone, Debug, PartialEq, Eq)]
pub struct MerkleRequest {
    /// The leaf data in canonical form.
    pub leaves: Vec<u64>,
    /// Number of words of the digest buffer. The device wants one digest at least.
    pub digests_size: usize,
    /// Number of words of the cap buffer.
    pub caps_size: usize,
    /// Number of digests below the cap.
    pub digests_len: u64,
    /// Number of digests in the cap.
    pub cap_len: u64,
    pub leaves_count: u64,
    pub leaf_size: u64,
    pub cap_height: u64,
    /// The family of hash functions.
    pub hash_type: u64,
}

/// The `count` lowest bytes of a number, the lowest first.
pub open spec fn le_bytes(w: nat, count: nat) -> Seq<u8>
    decreases count,
{
    if count == 0 {
        Seq::empty()
    } else {
        seq![(w % 256) as u8] + le_bytes(w / 256, (count - 1) as nat)
    }
}

/// The bytes of a sequence of words, as they stand in the memory of a little-endian machine.
pub open spec fn words_bytes(words: Seq<u64>) -> Seq<u8>
    decreases words.len(),
{
    if words.len() == 0 {
        Seq::empty()
    } else {
        words_bytes(words.drop_last()) + le_bytes(words.last() as nat, 8)
    }
}

/// Digest `i` of a buffer with four words to a digest: the first bytes of the four words,
/// as many as a digest has.
pub open spec fn digest_at<F, H: Hasher<F>>(words: Seq<u64>, i: nat) -> H::Hash {
    H::spec_hash_from_bytes(
        words_bytes(words.subrange(4 * i as int, (4 * i + 4) as int)).take(
            H::spec_hash_size() as int,
        ),
    )
}

/// `digests` are the first digests of a buffer with four words to a digest.
pub open spec fn are_digests<F, H: Hasher<F>>(words: Seq<u64>, digests: Seq<H::Hash>) -> bool {
    forall|i: int|
        0 <= i < digests.len() ==> #[trigger] digests[i] == digest_at::<F, H>(words, i as nat)
}

/// The request for the tree with `2^cap_height` subtrees over the leaves.
pub open spec fn is_merkle_request<F: RichField, H: Hasher<F>>(
    leaves: Seq<F>,
    leaf_size: usize,
    cap_height: usize,
    request: MerkleRequest,
) -> bool {
    let count = leaves.len() / leaf_size as nat;
    let digests = 2 * (count - pow2(cap_height as nat));
    &&& request.leaves@ == goldilocks::canonical_words(leaves)
    &&& request.digests_len == digests
    &&& request.cap_len == pow2(cap_height as nat)
    &&& request.digests_size == if digests == 0 {
        hasher::NUM_HASH_OUT_ELTS as int
    } else {
        digests * hasher::NUM_HASH_OUT_ELTS
    }
    &&& request.caps_size == pow2(cap_height as nat) * hasher::NUM_HASH_OUT_ELTS
    &&& request.leaves_count == count
    &&& request.leaf_size == leaf_size
    &&& request.cap_height == cap_height
    &&& request.hash_type == H::spec_hasher_type().spec_code()
}

/// `tree` holds the leaves, and the digests and the cap that the words are read as.
pub open spec fn is_read_tree<F: RichField, H: Hasher<F>>(
    tree: MerkleTreeGpu<F, H>,
    leaves: Seq<F>,
    leaf_size: usize,
    cap_height: usize,
    digest_words: Seq<u64>,
    cap_words: Seq<u64>,
) -> bool {
    &&& tree.leaves@ == leaves
    &&& tree.leaf_size == leaf_size
    &&& tree.digests@.len() == 2 * (leaves.len() / leaf_size as nat - pow2(cap_height as nat))
    &&& are_digests::<F, H>(digest_words, tree.digests@)
    &&& tree.cap.0@.len() == pow2(cap_height as nat)
    &&& are_digests::<F, H>(cap_words, tree.cap.0@)
}

/// A sequence of words has eight times as many bytes.
proof fn lemma_words_bytes_len(words: Seq<u64>)
    ensures
        words_bytes(words).len() == 8 * words.len(),
    decreases words.len(),
{
    if words.len() > 0 {
        lemma_words_bytes_len(words.drop_last());
        reveal_with_fuel(le_bytes, 9);
    }
}

/// Appends the eight bytes of a word.
fn push_word(bytes: &mut Vec<u8>, w: u64)
    ensures
        final(bytes)@ == old(bytes)@ + le_bytes(w as nat, 8),
{
    let ghost before = bytes@;
    let mut rest: u64 = w;
    let mut k: usize = 0;
    while k < 8
        invariant
            k <= 8,
            bytes@ + le_bytes(rest as nat, (8 - k) as nat) == before + le_bytes(w as nat, 8),
        decreases 8 - k,
    {
        let ghost so_far = bytes@;
        bytes.push((rest % 256) as u8);
        proof {
            assert(so_far + le_bytes(rest as nat, (8 - k) as nat) =~= bytes@ + le_bytes(
                rest as nat / 256,
                (7 - k) as nat,
            ));
        }
        rest = rest / 256;
        k = k + 1;
    }
    assert(bytes@ =~= bytes@ + le_bytes(rest as nat, 0));
}

/// The bytes of the words from `start` up to `end`.
fn range_bytes(words: &[u64], start: usize, end: usize) -> (r: Vec<u8>)
    requires
        start <= end <= words@.len(),
    ensures
        r@ == words_bytes(words@.subrange(start as int, end as int)),
{
    let mut r: Vec<u8> = Vec::new();
    let mut i: usize = start;
    while i < end
        invariant
            start <= i <= end <= words@.len(),
            r@ == words_bytes(words@.subrange(start as int, i as int)),
        decreases end - i,
    {
        push_word(&mut r, words[i]);
        proof {
            let next = words@.subrange(start as int, i + 1);
            assert(next.drop_last() =~= words@.subrange(start as int, i as int));
        }
        i = i + 1;
    }
    r
}

/// Reads the first `count` digests of a buffer with four words to a digest.
pub fn decode_digests<F, H: Hasher<F>>(words: &[u64], count: usize) -> (r: Vec<H::Hash>)
    requires
        4 * count <= words@.len(),
        H::spec_hash_size() <= DIGEST_BYTES,
    ensures
        r@.len() == count,
        are_digests::<F, H>(words@, r@),
        forall|i: int| 0 <= i < count ==> #[trigger] r@[i] == digest_at::<F, H>(words@, i as nat),
        forall|i: int|
            0 <= i < count ==> #[trigger] r@[i] == device::stored_digest::<F, H>(words@, i),
{
    let total: usize = words.len();
    let size: usize = H::hash_size();
    let mut r: Vec<H::Hash> = Vec::new();
    let mut i: usize = 0;
    while i < count
        invariant
            i <= count,
            total == words@.len(),
            4 * count <= total,
            size == H::spec_hash_size(),
            size <= DIGEST_BYTES,
            r@.len() == i,
            forall|k: int|
                0 <= k < i ==> #[trigger] r@[k] == digest_at::<F, H>(words@, k as nat),
        decreases count - i,
    {
        let bytes = range_bytes(words, 4 * i, 4 * i + 4);
        proof {
            lemma_words_bytes_len(words@.subrange(4 * i as int, 4 * i + 4));
        }
        let head = &bytes.as_slice()[0..size];
        assert(head@ =~= bytes@.take(size as int));
        r.push(H::hash_from_bytes(head));
        i = i + 1;
    }
    proof {
        assert forall|k: int| 0 <= k < count implies #[trigger] r@[k]
            == device::stored_digest::<F, H>(words@, k) by {
            lemma_read_digest::<F, H>(words@, r@, k);
        }
    }
    r
}

impl<F: RichField, H: Hasher<F>> MerkleTreeGpu<F, H> {
    /// The request for the device, for a tree that belongs there.
    pub fn device_request(
        leaves: &Vec<F>,
        leaf_size: usize,
        cap_height: usize,
    ) -> (r: Option<MerkleRequest>)
        requires
            Self::can_build(leaves@, leaf_size, cap_height),
        ensures
            r is Some <==> is_device_tree(
                leaves@.len() / leaf_size as nat,
                leaf_size as nat,
                H::spec_hasher_type(),
            ),
            r matches Some(request) ==> is_merkle_request::<F, H>(
                leaves@,
                leaf_size,
                cap_height,
                request,
            ),
    {
        let leaves_count: usize = leaves.len() / leaf_size;
        let hasher_type = H::hasher_type();
        if !should_use_gpu_merkle(leaves_count, leaf_size, hasher_type) {
            return None;
        }
        proof {
            bits::lemma_pow2_monotone(cap_height as nat, bits::log2(leaves_count as nat));
            lemma_pow2_pos(cap_height as nat);
        }
        let cap_len: usize = bits::pow2_exec(cap_height);
        let digests_len: usize = 2 * (leaves_count - cap_len);
        let digests_size: usize = if digests_len == 0 {
            hasher::NUM_HASH_OUT_ELTS
        } else {
            digests_len * hasher::NUM_HASH_OUT_ELTS
        };
        Some(
            MerkleRequest {
                leaves: goldilocks::to_canonical_words(leaves.as_slice()),
                digests_size,
                caps_size: cap_len * hasher::NUM_HASH_OUT_ELTS,
                digests_len: digests_len as u64,
                cap_len: cap_len as u64,
                leaves_count: leaves_count as u64,
                leaf_size: leaf_size as u64,
                cap_height: cap_height as u64,
                hash_type: hasher_type.code(),
            },
        )
    }

    /// The tree from the words that the device handed back for its digests and its cap.
    pub fn from_device(
        leaves: Vec<F>,
        leaf_size: usize,
        cap_height: usize,
        digest_words: &[u64],
        cap_words: &[u64],
    ) -> (r: Self)
        requires
            Self::can_build(leaves@, leaf_size, cap_height),
            H::spec_hash_size() <= DIGEST_BYTES,
            digest_words@.len() >= 4 * (2 * (leaves@.len() / leaf_size as nat - pow2(
                cap_height as nat,
            ))),
            cap_words@.len() >= 4 * pow2(cap_height as nat),
        ensures
            is_read_tree(r, leaves@, leaf_size, cap_height, digest_words@, cap_words@),
            r.leaves == leaves,
            r.leaf_size == leaf_size,
            r.digests@.len() == 2 * (r.count() - pow2(cap_height as nat)),
            forall|i: int|
                0 <= i < r.digests@.len() ==> #[trigger] r.digests@[i] == digest_at::<F, H>(
                    digest_words@,
                    i as nat,
                ),
            r.cap.0@.len() == pow2(cap_height as nat),
            forall|i: int|
                0 <= i < r.cap.0@.len() ==> #[trigger] r.cap.0@[i] == digest_at::<F, H>(
                    cap_words@,
                    i as nat,
                ),
            forall|i: usize| i < r.count() ==> #[trigger] r.can_prove(i),
            is_right_reply::<F, H>(
                leaves@,
                leaf_size as nat,
                cap_height as nat,
                digest_words@,
                cap_words@,
            ) ==> r.wf(),
    {
        let leaves_count: usize = leaves.len() / leaf_size;
        proof {
            bits::lemma_pow2_monotone(cap_height as nat, bits::log2(leaves_count as nat));
        }
        let cap_len: usize = bits::pow2_exec(cap_height);
        let digests = decode_digests::<F, H>(digest_words, 2 * (leaves_count - cap_len));
        let cap = decode_digests::<F, H>(cap_words, cap_len);
        let tree = MerkleTreeGpu { leaves, leaf_size, digests, cap: MerkleCap(cap) };
        proof {
            merkle_tree_gpu::lemma_forest_size(leaves_count as nat, cap_height as nat);
            merkle_tree_gpu::lemma_can_prove(tree);
            if is_right_reply::<F, H>(
                leaves@,
                leaf_size as nat,
                cap_height as nat,
                digest_words@,
                cap_words@,
            ) {
                lemma_right_reply_is_wf(tree, cap_height as nat, digest_words@, cap_words@);
            }
        }
        tree
    }
}

/// The words of a right device: digest for digest what the layout asks for.
pub open spec fn is_right_reply<F: RichField, H: Hasher<F>>(
    leaves: Seq<F>,
    leaf_size: nat,
    cap_height: nat,
    digest_words: Seq<u64>,
    cap_words: Seq<u64>,
) -> bool {
    let layers = (bits::log2(leaves.len() / leaf_size) - cap_height) as nat;
    &&& forall|subtree: nat, level: nat, pos: nat|
        subtree < pow2(cap_height) && level < layers && pos < pow2((layers - level) as nat)
            ==> digest_at::<F, H>(
            digest_words,
            #[trigger] merkle_layout::digest_position(layers, subtree, level, pos) as nat,
        ) == merkle_layout::node::<F, H>(
            leaves,
            leaf_size,
            level,
            subtree * pow2((layers - level) as nat) + pos,
        )
    &&& forall|i: nat|
        i < pow2(cap_height) ==> digest_at::<F, H>(cap_words, i)
            == #[trigger] merkle_layout::node::<F, H>(leaves, leaf_size, layers, i)
}

/// A tree with the digests of a right reply of the device is well built.
pub proof fn lemma_right_reply_is_wf<F: RichField, H: Hasher<F>>(
    device: MerkleTreeGpu<F, H>,
    cap_height: nat,
    digest_words: Seq<u64>,
    cap_words: Seq<u64>,
)
    requires
        device.has_shape(),
        device.cap.0@.len() == pow2(cap_height),
        forall|i: int|
            0 <= i < device.digests@.len() ==> #[trigger] device.digests@[i] == digest_at::<F, H>(
                digest_words,
                i as nat,
            ),
        forall|i: int|
            0 <= i < device.cap.0@.len() ==> #[trigger] device.cap.0@[i] == digest_at::<F, H>(
                cap_words,
                i as nat,
            ),
        is_right_reply::<F, H>(
            device.leaves@,
            device.leaf_size as nat,
            cap_height,
            digest_words,
            cap_words,
        ),
    ensures
        device.wf(),
{
    let layers = device.layers() as nat;
    bits::lemma_log2_pow2(cap_height);
    assert forall|subtree: nat, level: nat, pos: nat|
        subtree < pow2(cap_height) && level < layers && pos < pow2(
            (layers - level) as nat,
        ) implies device.digests@[#[trigger] merkle_layout::digest_position(
        layers,
        subtree,
        level,
        pos,
    )] == merkle_layout::node::<F, H>(
        device.leaves@,
        device.leaf_size as nat,
        level,
        subtree * pow2((layers - level) as nat) + pos,
    ) by {
        let q = merkle_layout::digest_position(layers, subtree, level, pos);
        merkle_layout::lemma_digest_position_bound(layers, subtree, level, pos);
        lemma_mul_inequality(
            (subtree + 1) as int,
            pow2(cap_height) as int,
            merkle_layout::subtree_digest_size(layers),
        );
        assert(device.digests@[q] == digest_at::<F, H>(digest_words, q as nat));
    }
    assert forall|i: nat| i < pow2(cap_height) implies device.cap.0@[i as int]
        == #[trigger] merkle_layout::node::<F, H>(
        device.leaves@,
        device.leaf_size as nat,
        layers,
        i,
    ) by {
        assert(device.cap.0@[i as int] == digest_at::<F, H>(cap_words, i));
    }
}

/// From a right reply of the device, `from_device` makes the tree that the host builds.
pub proof fn lemma_device_tree_is_host_tree<F: RichField, H: Hasher<F>>(
    device: MerkleTreeGpu<F, H>,
    host: MerkleTreeGpu<F, H>,
    cap_height: nat,
    digest_words: Seq<u64>,
    cap_words: Seq<u64>,
)
    requires
        host.wf(),
        host.cap.0@.len() == pow2(cap_height),
        device.leaves@ == host.leaves@,
        device.leaf_size == host.leaf_size,
        device.digests@.len() == 2 * (device.count() - pow2(cap_height)),
        forall|i: int|
            0 <= i < device.digests@.len() ==> #[trigger] device.digests@[i] == digest_at::<F, H>(
                digest_words,
                i as nat,
            ),
        device.cap.0@.len() == pow2(cap_height),
        forall|i: int|
            0 <= i < device.cap.0@.len() ==> #[trigger] device.cap.0@[i] == digest_at::<F, H>(
                cap_words,
                i as nat,
            ),
        is_right_reply::<F, H>(
            device.leaves@,
            device.leaf_size as nat,
            cap_height,
            digest_words,
            cap_words,
        ),
    ensures
        device.wf(),
        device.digests@ == host.digests@,
        device.cap.0@ == host.cap.0@,
{
    bits::lemma_log2_pow2(cap_height);
    merkle_tree_gpu::lemma_forest_size(device.count(), cap_height);
    lemma_right_reply_is_wf(device, cap_height, digest_words, cap_words);
    merkle_tree_gpu::lemma_tree_unique(device, host);
}

/// A tree belongs on the device with leaves of five elements or more, 1024 to 131072 of
/// them, and any family of hash functions but Keccak.
pub proof fn lemma_which_trees_run(leaves_count: nat, leaf_size: nat, hasher_type: HasherType)
    ensures
        is_device_tree(leaves_count, leaf_size, hasher_type) <==> leaf_size >= 5 && 1024
            <= leaves_count <= 131072 && !(hasher_type is Keccak),
{
}

/// Byte `b` of a number is its digit to the base 256.
proof fn lemma_le_byte(w: nat, count: nat, b: nat)
    requires
        b < count,
    ensures
        le_bytes(w, count).len() == count,
        le_bytes(w, count)[b as int] == ((w as int / pow(256, b)) % 256) as u8,
    decreases count,
{
    reveal(pow);
    reveal_with_fuel(le_bytes, 2);
    if count > 1 {
        lemma_le_byte(w / 256, (count - 1) as nat, if b == 0 {
            0
        } else {
            (b - 1) as nat
        });
    }
    if b > 0 {
        lemma_pow_positive(256, (b - 1) as nat);
        lemma_div_denominator(w as int, 256, pow(256, (b - 1) as nat));
    } else {
        lemma_div_basics(w as int);
    }
}

/// Byte `b` of a sequence of words is byte `b % 8` of word `b / 8`.
proof fn lemma_words_byte(words: Seq<u64>, b: int)
    requires
        0 <= b < 8 * words.len(),
    ensures
        words_bytes(words).len() == 8 * words.len(),
        words_bytes(words)[b] == ((words[b / 8] as int / pow(256, (b % 8) as nat)) % 256) as u8,
    decreases words.len(),
{
    let less = words.drop_last();
    lemma_words_bytes_len(words);
    lemma_words_bytes_len(less);
    if b < 8 * less.len() {
        lemma_words_byte(less, b);
        assert(less[b / 8] == words[b / 8]);
    } else {
        lemma_le_byte(words.last() as nat, 8, (b % 8) as nat);
    }
}

/// Digest `i` is read from words `4 * i` to `4 * i + 3` alone, and its bytes are theirs, the
/// lowest of each word first.
pub proof fn lemma_digest_words<F, H: Hasher<F>>(
    words: Seq<u64>,
    digests: Seq<H::Hash>,
    i: int,
    bytes: Seq<u8>,
)
    requires
        H::spec_hash_size() <= 32,
        4 * digests.len() <= words.len(),
        are_digests::<F, H>(words, digests),
        0 <= i < digests.len(),
        bytes.len() == H::spec_hash_size(),
        forall|b: int|
            0 <= b < bytes.len() ==> #[trigger] bytes[b] == (words[4 * i + b / 8] as int / pow(
                256,
                (b % 8) as nat,
            )) % 256,
    ensures
        digests[i] == H::spec_hash_from_bytes(bytes),
        digests[i] == device::stored_digest::<F, H>(words, i),
{
    let four = words.subrange(4 * i, 4 * i + 4);
    let all = words_bytes(four);
    lemma_words_bytes_len(four);
    assert forall|b: int| 0 <= b < bytes.len() implies all[b] == bytes[b] by {
        lemma_words_byte(four, b);
        assert(four[b / 8] == words[4 * i + b / 8]);
        assert(bytes[b] == (words[4 * i + b / 8] as int / pow(256, (b % 8) as nat)) % 256);
    }
    assert(all.take(bytes.len() as int) =~= bytes);
    assert(digests[i] == digest_at::<F, H>(words, i as nat));
    let stored = Seq::new(
        H::spec_hash_size(),
        |b: int| ((words[4 * i + b / 8] as int / pow(256, (b % 8) as nat)) % 256) as u8,
    );
    assert forall|b: int| 0 <= b < bytes.len() implies stored[b] == bytes[b] by {
        assert(bytes[b] == (words[4 * i + b / 8] as int / pow(256, (b % 8) as nat)) % 256);
    }
    assert(stored =~= bytes);
}

/// Reading a buffer gives back the digests whose bytes were written to it, four words to a
/// digest.
pub proof fn lemma_written_digests<F, H: Hasher<F>>(
    words: Seq<u64>,
    written: Seq<H::Hash>,
    read: Seq<H::Hash>,
)
    requires
        H::spec_hash_size() <= 32,
        read.len() == written.len(),
        4 * read.len() <= words.len(),
        are_digests::<F, H>(words, read),
        forall|i: int|
            0 <= i < written.len() ==> device::stored_digest::<F, H>(words, i)
                == #[trigger] written[i],
    ensures
        read == written,
{
    assert forall|i: int| 0 <= i < read.len() implies read[i] == written[i] by {
        lemma_read_digest::<F, H>(words, read, i);
        assert(device::stored_digest::<F, H>(words, i) == written[i]);
    }
    assert(read =~= written);
}

/// A digest that is read is the one that is stored.
proof fn lemma_read_digest<F, H: Hasher<F>>(words: Seq<u64>, digests: Seq<H::Hash>, i: int)
    requires
        H::spec_hash_size() <= 32,
        4 * digests.len() <= words.len(),
        are_digests::<F, H>(words, digests),
        0 <= i < digests.len(),
    ensures
        digests[i] == device::stored_digest::<F, H>(words, i),
{
    let bytes = Seq::new(
        H::spec_hash_size(),
        |b: int| ((words[4 * i + b / 8] as int / pow(256, (b % 8) as nat)) % 256) as u8,
    );
    assert forall|b: int| 0 <= b < bytes.len() implies #[trigger] bytes[b] == (words[4 * i + b / 8]
        as int / pow(256, (b % 8) as nat)) % 256 by {
        let q = words[4 * i + b / 8] as int / pow(256, (b % 8) as nat);
        lemma_mod_bound(q, 256);
    }
    lemma_digest_words::<F, H>(words, digests, i, bytes);
}

/// What a request says in plain numbers: the leaves in canonical form and in order, four
/// words to a digest, and room for one digest at least.
pub proof fn lemma_request_meaning<F: RichField, H: Hasher<F>>(
    leaves: Seq<F>,
    leaf_size: usize,
    cap_height: usize,
    request: MerkleRequest,
)
    requires
        is_merkle_request::<F, H>(leaves, leaf_size, cap_height, request),
        leaf_size > 0,
    ensures
        request.leaves@.len() == leaves.len(),
        forall|i: int|
            0 <= i < leaves.len() ==> #[trigger] request.leaves@[i] == leaves[i].spec_canonical(),
        request.leaves_count * leaf_size <= leaves.len() < (request.leaves_count + 1) * leaf_size,
        request.leaf_size == leaf_size,
        request.cap_height == cap_height,
        request.cap_len == pow2(cap_height as nat),
        request.digests_len == 2 * request.leaves_count - 2 * request.cap_len,
        request.digests_len > 0 ==> request.digests_size == 4 * request.digests_len,
        request.digests_len == 0 ==> request.digests_size == 4,
        request.caps_size == 4 * request.cap_len,
        request.hash_type == device::hash_number(H::spec_hasher_type()),
{
    let q = leaves.len() as int / leaf_size as int;
    lemma_fundamental_div_mod(leaves.len() as int, leaf_size as int);
    lemma_mod_bound(leaves.len() as int, leaf_size as int);
    lemma_mul_is_commutative(leaf_size as int, q);
    lemma_mul_is_distributive_add_other_way(leaf_size as int, q, 1);
}

/// What a right device makes of the request for a tree is right for the leaves.
proof fn lemma_merkle_as_sent<F: RichField, H: Hasher<F>>(
    leaves: Seq<F>,
    leaf_size: usize,
    cap_height: usize,
    request: MerkleRequest,
    digest_words: Seq<u64>,
    cap_words: Seq<u64>,
)
    requires
        MerkleTreeGpu::<F, H>::can_build(leaves, leaf_size, cap_height),
        H::spec_hash_size() <= 32,
        forall|i: int|
            0 <= i < leaves.len() ==> F::spec_from_canonical(
                (#[trigger] leaves[i]).spec_canonical(),
            ) == leaves[i],
        is_merkle_request::<F, H>(leaves, leaf_size, cap_height, request),
        device::merkle::<F, H>(request, digest_words, cap_words),
    ensures
        digest_words.len() >= 4 * request.digests_len,
        cap_words.len() >= 4 * request.cap_len,
        is_right_reply::<F, H>(
            leaves,
            leaf_size as nat,
            cap_height as nat,
            digest_words,
            cap_words,
        ),
{
    let ls = leaf_size as nat;
    let count = leaves.len() / ls;
    let lg = bits::log2(count);
    let layers = (lg - cap_height) as nat;
    let subtrees = pow2(cap_height as nat);
    let given = device::request_leaves::<F>(request);
    lemma_request_meaning::<F, H>(leaves, leaf_size, cap_height, request);
    bits::lemma_pow2_split(lg, cap_height as nat);
    lemma_pow2_pos(cap_height as nat);
    lemma_pow2_pos(layers);
    lemma_mul_is_commutative(pow2(layers) as int, subtrees as int);
    lemma_div_by_multiple(pow2(layers) as int, subtrees as int);
    bits::lemma_log2_pow2(layers);
    merkle_tree_gpu::lemma_forest_size(count, cap_height as nat);
    // The device reads the leaves that the tree is built over.
    assert forall|k: int| 0 <= k < given.len() implies #[trigger] merkle_layout::leaf_at(
        leaves,
        ls,
        k as nat,
    ) == given[k] by {
        lemma_mul_inequality(k + 1, count as int, ls as int);
        lemma_mul_is_distributive_add_other_way(ls as int, k, 1);
        lemma_mul_nonnegative(k, ls as int);
        assert forall|j: int| 0 <= j < ls implies given[k][j] == leaves[k * ls + j] by {
            assert(request.leaves@[k * ls + j] == leaves[k * ls + j].spec_canonical());
        }
        assert(merkle_layout::leaf_at(leaves, ls, k as nat) =~= given[k]);
    }
    assert(digest_words.len() >= 4 * request.digests_len);
    let all = Seq::new(
        request.digests_len as nat,
        |i: int| digest_at::<F, H>(digest_words, i as nat),
    );
    let caps = Seq::new(request.cap_len as nat, |i: int| digest_at::<F, H>(cap_words, i as nat));
    assert forall|subtree: nat, level: nat, pos: nat|
        subtree < subtrees && level < layers && pos < pow2((layers - level) as nat) implies digest_at::<
        F,
        H,
    >(
        digest_words,
        #[trigger] merkle_layout::digest_position(layers, subtree, level, pos) as nat,
    ) == merkle_layout::node::<F, H>(
        leaves,
        ls,
        level,
        subtree * pow2((layers - level) as nat) + pos,
    ) by {
        let q = merkle_layout::digest_position(layers, subtree, level, pos);
        let w = pow2((layers - level) as nat);
        let i = subtree * w + pos;
        merkle_layout::lemma_digest_position_bound(layers, subtree, level, pos);
        lemma_mul_inequality(
            (subtree + 1) as int,
            subtrees as int,
            merkle_layout::subtree_digest_size(layers),
        );
        lemma_pow2_unfold(layers + 1);
        assert(device::digest_place(layers, subtree, level, pos) == q);
        lemma_read_digest::<F, H>(digest_words, all, q);
        assert(all[q] == digest_at::<F, H>(digest_words, q as nat));
        // The leaves below the node are among those of the tree.
        bits::lemma_pow2_split(layers, level);
        lemma_mul_inequality((subtree + 1) as int, subtrees as int, w as int);
        lemma_mul_is_distributive_add_other_way(w as int, subtree as int, 1);
        lemma_mul_inequality((i + 1) as int, (subtrees * w) as int, pow2(level) as int);
        lemma_mul_is_associative(subtrees as int, w as int, pow2(level) as int);
        merkle_layout::lemma_node_is_root::<F, H>(leaves, ls, given, level, i);
    }
    assert forall|i: nat| i < subtrees implies digest_at::<F, H>(cap_words, i)
        == #[trigger] merkle_layout::node::<F, H>(leaves, ls, layers, i) by {
        lemma_read_digest::<F, H>(cap_words, caps, i as int);
        assert(caps[i as int] == digest_at::<F, H>(cap_words, i));
        lemma_mul_inequality((i + 1) as int, subtrees as int, pow2(layers) as int);
        merkle_layout::lemma_node_is_root::<F, H>(leaves, ls, given, layers, i);
    }
}

/// The request of `device_request`, a right device, and `from_device` together build the tree
/// that the host builds over the same leaves, which are in canonical form.
pub proof fn lemma_device_builds_host_tree<F: RichField, H: Hasher<F>>(
    leaves: Seq<F>,
    leaf_size: usize,
    cap_height: usize,
    request: MerkleRequest,
    digest_words: Seq<u64>,
    cap_words: Seq<u64>,
    device_tree: MerkleTreeGpu<F, H>,
    host_tree: MerkleTreeGpu<F, H>,
)
    requires
        MerkleTreeGpu::<F, H>::can_build(leaves, leaf_size, cap_height),
        H::spec_hash_size() <= 32,
        forall|i: int|
            0 <= i < leaves.len() ==> F::spec_from_canonical(
                (#[trigger] leaves[i]).spec_canonical(),
            ) == leaves[i],
        is_merkle_request::<F, H>(leaves, leaf_size, cap_height, request),
        device::merkle::<F, H>(request, digest_words, cap_words),
        is_read_tree(device_tree, leaves, leaf_size, cap_height, digest_words, cap_words),
        host_tree.wf(),
        host_tree.leaves@ == leaves,
        host_tree.leaf_size == leaf_size,
        host_tree.cap.0@.len() == pow2(cap_height as nat),
    ensures
        device_tree.wf(),
        device_tree.digests@ == host_tree.digests@,
        device_tree.cap.0@ == host_tree.cap.0@,
        digest_words.len() == request.digests_size,
        cap_words.len() == request.caps_size,
{
    lemma_merkle_as_sent::<F, H>(
        leaves,
        leaf_size,
        cap_height,
        request,
        digest_words,
        cap_words,
    );
    lemma_device_tree_is_host_tree(
        device_tree,
        host_tree,
        cap_height as nat,
        digest_words,
        cap_words,
    );
}

} // verus!
