use plonky2_gpu::goldilocks::{GoldilocksField, RichField, ORDER};
use plonky2_gpu::hasher::{Hasher, HasherType};
use plonky2_gpu::merkle_device::{decode_digests, should_use_gpu_merkle, MerkleRequest};
use plonky2_gpu::merkle_tree_gpu::{
    fill_digests_buf_cpu_rust, fill_subtree_linear, MerkleCap, MerkleProof, MerkleTreeGpu,
};

type F = GoldilocksField;

/// A mixing function on four words, for trees only.
#[derive(Clone, Debug, PartialEq, Eq)]
struct Mix;

fn mix(state: [u64; 4], x: u64) -> [u64; 4] {
    let mut s = state;
    for round in 0..4u64 {
        s[0] = (s[0] ^ x).wrapping_mul(0x9E3779B97F4A7C15).rotate_left(17);
        s[1] = s[1].wrapping_add(s[0]).wrapping_mul(0xBF58476D1CE4E5B9).rotate_left(29);
        s[2] = (s[2] ^ s[1].wrapping_add(round)).wrapping_mul(0x94D049BB133111EB);
        s[3] = s[3].rotate_left(41).wrapping_add(s[2] ^ x);
    }
    s
}

impl Hasher<F> for Mix {
    type Hash = [u64; 4];

    fn hasher_type() -> HasherType {
        HasherType::Poseidon
    }

    fn hash_size() -> usize {
        32
    }

    fn hash_or_noop(input: &[F]) -> [u64; 4] {
        let mut s = [1, 2, 3, input.len() as u64];
        for x in input {
            s = mix(s, x.to_canonical_u64());
        }
        s
    }

    fn two_to_one(left: [u64; 4], right: [u64; 4]) -> [u64; 4] {
        let mut s = [5, 6, 7, 8];
        for x in left.iter().chain(right.iter()) {
            s = mix(s, *x);
        }
        s
    }

    fn hash_from_bytes(bytes: &[u8]) -> [u64; 4] {
        let mut s = [0u64; 4];
        for (i, part) in bytes.chunks(8).enumerate() {
            for (k, b) in part.iter().enumerate() {
                s[i] |= (*b as u64) << (8 * k);
            }
        }
        s
    }
}

type H = Mix;

/// Digests of 25 bytes from the Keccak family.
#[derive(Clone, Debug, PartialEq, Eq)]
struct Short;

impl Hasher<F> for Short {
    type Hash = [u8; 25];

    fn hasher_type() -> HasherType {
        HasherType::Keccak
    }

    fn hash_size() -> usize {
        25
    }

    fn hash_or_noop(input: &[F]) -> [u8; 25] {
        [input.len() as u8; 25]
    }

    fn two_to_one(left: [u8; 25], right: [u8; 25]) -> [u8; 25] {
        let mut r = left;
        for i in 0..25 {
            r[i] = left[i].wrapping_mul(3).wrapping_add(right[24 - i]);
        }
        r
    }

    fn hash_from_bytes(bytes: &[u8]) -> [u8; 25] {
        let mut r = [0u8; 25];
        r.copy_from_slice(bytes);
        r
    }
}

fn rand_vec(seed: u64, n: usize) -> Vec<F> {
    let mut state = seed;
    (0..n)
        .map(|_| {
            state = state.wrapping_add(0x9E3779B97F4A7C15);
            let mut z = state;
            z = (z ^ (z >> 30)).wrapping_mul(0xBF58476D1CE4E5B9);
            z = (z ^ (z >> 27)).wrapping_mul(0x94D049BB133111EB);
            GoldilocksField((z ^ (z >> 31)) % ORDER)
        })
        .collect()
}

fn random_leaves(n: usize, leaf_size: usize) -> Vec<F> {
    rand_vec(n as u64 * 1000 + leaf_size as u64, n * leaf_size)
}

fn verify_merkle_proof_to_cap(
    leaf: Vec<F>,
    leaf_index: usize,
    cap: &MerkleCap<F, H>,
    proof: &MerkleProof<F, H>,
) -> Result<(), String> {
    let mut index = leaf_index;
    let mut digest = H::hash_or_noop(&leaf);
    for sibling in &proof.siblings {
        digest = if index % 2 == 1 {
            H::two_to_one(*sibling, digest)
        } else {
            H::two_to_one(digest, *sibling)
        };
        index /= 2;
    }
    if cap.0[index] == digest {
        Ok(())
    } else {
        Err(format!("cap entry {} differs", index))
    }
}

/// All levels of the tree, the leaf digests first.
fn levels(leaves: &[F], leaf_size: usize) -> Vec<Vec<[u64; 4]>> {
    let mut all = vec![leaves.chunks_exact(leaf_size).map(H::hash_or_noop).collect::<Vec<_>>()];
    while all[all.len() - 1].len() > 1 {
        let last = &all[all.len() - 1];
        let next = last.chunks_exact(2).map(|c| H::two_to_one(c[0], c[1])).collect();
        all.push(next);
    }
    all
}

/// What the device fills its two buffers with.
fn run(request: &MerkleRequest) -> (Vec<u64>, Vec<u64>) {
    let leaves: Vec<F> = request.leaves.iter().map(|&w| GoldilocksField(w)).collect();
    let all = levels(&leaves, request.leaf_size as usize);
    let cap_level = all.len() - 1 - request.cap_height as usize;
    let subtrees = request.cap_len as usize;
    let mut digests = vec![0u64; request.digests_size];
    let mut place = 0;
    for t in 0..subtrees {
        for level in (0..cap_level).rev() {
            let width = all[level].len() / subtrees;
            for i in 0..width {
                digests[4 * place..4 * place + 4].copy_from_slice(&all[level][t * width + i]);
                place += 1;
            }
        }
    }
    assert_eq!(place as u64, request.digests_len);
    let mut caps = vec![0u64; request.caps_size];
    for t in 0..subtrees {
        caps[4 * t..4 * t + 4].copy_from_slice(&all[cap_level][t]);
    }
    (digests, caps)
}

#[test]
fn test_merkle_tree_gpu_basic() {
    let n = 16;
    let leaf_size = 8;
    let cap_height = 2;

    let leaves = random_leaves(n, leaf_size);
    let tree = MerkleTreeGpu::<F, H>::new(leaves.clone(), leaf_size, cap_height);

    assert_eq!(tree.leaves_count(), n);
    assert_eq!(tree.cap.len(), 1 << cap_height);
}

#[test]
fn test_merkle_tree_gpu_proof() {
    let n = 64;
    let leaf_size = 8;
    let cap_height = 2;

    let leaves = random_leaves(n, leaf_size);
    let tree = MerkleTreeGpu::<F, H>::new(leaves.clone(), leaf_size, cap_height);

    // Verify all leaves
    for i in 0..n {
        let leaf = tree.get(i).to_vec();
        let proof = tree.prove(i);
        let result = verify_merkle_proof_to_cap(leaf, i, &tree.cap, &proof);
        assert!(result.is_ok(), "Proof failed for leaf {}: {:?}", i, result);
    }
}

#[test]
fn test_merkle_tree_gpu_various_sizes() {
    for log_n in 4..10 {
        let n = 1 << log_n;
        for cap_height in 0..=log_n {
            let leaf_size = 8;
            let leaves = random_leaves(n, leaf_size);
            let tree = MerkleTreeGpu::<F, H>::new(leaves.clone(), leaf_size, cap_height);

            // Test a few random leaves
            for i in [0, n / 4, n / 2, n - 1] {
                let leaf = tree.get(i).to_vec();
                let proof = tree.prove(i);
                let result = verify_merkle_proof_to_cap(leaf, i, &tree.cap, &proof);
                assert!(
                    result.is_ok(),
                    "Proof failed for n={}, cap_height={}, leaf {}: {:?}",
                    n,
                    cap_height,
                    i,
                    result
                );
            }
        }
    }
}

#[test]
fn test_merkle_tree_gpu_vs_cpu_correctness() {
    // Test sizes too small for GPU (will use CPU path)
    for log_n in 4..8 {
        let n = 1 << log_n;
        let leaf_size = 8;
        let cap_height = 2;

        let leaves_flat = random_leaves(n, leaf_size);

        // Build both trees
        let tree_gpu = MerkleTreeGpu::<F, H>::new(leaves_flat.clone(), leaf_size, cap_height);
        let all = levels(&leaves_flat, leaf_size);
        let cpu_caps = &all[log_n - cap_height];

        // Verify cap matches
        assert_eq!(tree_gpu.cap.0.len(), cpu_caps.len(), "Cap length mismatch for n={}", n);

        // Both caps should produce the same root hashes
        for (i, (gpu_cap, cpu_cap)) in tree_gpu.cap.0.iter().zip(cpu_caps.iter()).enumerate() {
            assert_eq!(
                gpu_cap, cpu_cap,
                "Cap {} mismatch for n={}: GPU={:?}, CPU={:?}",
                i, n, gpu_cap, cpu_cap
            );
        }

        // Verify proofs are compatible
        for leaf_idx in [0, n / 4, n / 2, n - 1] {
            let leaf = tree_gpu.get(leaf_idx).to_vec();
            let proof_gpu = tree_gpu.prove(leaf_idx);
            let proof_cpu = MerkleProof::<F, H> {
                siblings: (0..log_n - cap_height).map(|k| all[k][(leaf_idx >> k) ^ 1]).collect(),
            };

            // Both proofs should verify
            let result_gpu =
                verify_merkle_proof_to_cap(leaf.clone(), leaf_idx, &tree_gpu.cap, &proof_gpu);
            let cap_cpu = MerkleCap::<F, H>(cpu_caps.clone());
            let result_cpu =
                verify_merkle_proof_to_cap(leaf.clone(), leaf_idx, &cap_cpu, &proof_cpu);

            assert!(
                result_gpu.is_ok(),
                "GPU proof failed for n={}, leaf {}: {:?}",
                n,
                leaf_idx,
                result_gpu
            );
            assert!(
                result_cpu.is_ok(),
                "CPU proof failed for n={}, leaf {}: {:?}",
                n,
                leaf_idx,
                result_cpu
            );
            assert_eq!(proof_gpu, proof_cpu);
        }
    }
}

#[test]
fn digests_stand_level_by_level() {
    let leaves = random_leaves(8, 3);
    let all = levels(&leaves, 3);
    let tree = MerkleTreeGpu::<F, H>::new(leaves.clone(), 3, 0);
    let mut expected = all[2].clone();
    expected.extend(all[1].iter());
    expected.extend(all[0].iter());
    assert_eq!(tree.digests, expected);
    assert_eq!(tree.cap.0, all[3]);

    // Two subtrees follow one another.
    let tree = MerkleTreeGpu::<F, H>::new(leaves.clone(), 3, 1);
    let mut expected = all[1][0..2].to_vec();
    expected.extend(all[0][0..4].iter());
    expected.extend(all[1][2..4].iter());
    expected.extend(all[0][4..8].iter());
    assert_eq!(tree.digests, expected);
    assert_eq!(tree.cap.0, all[2]);

    // All cap.
    let tree = MerkleTreeGpu::<F, H>::new(leaves, 3, 3);
    assert_eq!(tree.digests.len(), 0);
    assert_eq!(tree.cap.0, all[0]);
    assert_eq!(tree.prove(5).siblings.len(), 0);
}

#[test]
fn single_subtree_of_one_two_and_four_leaves() {
    let leaves = random_leaves(4, 2);
    let all = levels(&leaves, 2);
    let (digests, root) = fill_subtree_linear::<F, H>(&leaves[0..2], 2);
    assert_eq!(digests.len(), 0);
    assert_eq!(root, all[0][0]);
    let (digests, root) = fill_subtree_linear::<F, H>(&leaves[0..4], 2);
    assert_eq!(digests, all[0][0..2].to_vec());
    assert_eq!(root, all[1][0]);
    let (digests, root) = fill_subtree_linear::<F, H>(&leaves, 2);
    assert_eq!(digests.len(), 6);
    assert_eq!(digests[0..2].to_vec(), all[1]);
    assert_eq!(root, all[2][0]);
    let (digests, cap) = fill_digests_buf_cpu_rust::<F, H>(&leaves, 2, 1);
    assert_eq!(digests, all[0]);
    assert_eq!(cap, all[1]);
}

#[test]
fn leaves_one_by_one() {
    let leaves = random_leaves(8, 5);
    let leaves_2d: Vec<Vec<F>> = leaves.chunks_exact(5).map(|c| c.to_vec()).collect();
    let tree = MerkleTreeGpu::<F, H>::from_2d(leaves_2d.clone(), 1);
    assert_eq!(tree, MerkleTreeGpu::<F, H>::new(leaves.clone(), 5, 1));
    assert_eq!(tree.get_leaves_2d(), leaves_2d);
    assert_eq!(tree.get(7).to_vec(), leaves_2d[7]);
    assert_eq!(tree.leaf_size, 5);
}

#[test]
fn elements_beyond_the_last_whole_leaf_are_ignored() {
    let mut leaves = random_leaves(4, 3);
    let tree = MerkleTreeGpu::<F, H>::new(leaves.clone(), 3, 0);
    leaves.push(F::one());
    let longer = MerkleTreeGpu::<F, H>::new(leaves, 3, 0);
    assert_eq!(longer.leaves_count(), 4);
    assert_eq!(longer.digests, tree.digests);
    assert_eq!(longer.cap, tree.cap);
    assert_eq!(longer.get_leaves_2d(), tree.get_leaves_2d());
}

#[test]
fn empty_tree() {
    let tree = MerkleTreeGpu::<F, H>::default();
    assert_eq!(tree.leaves.len(), 0);
    assert_eq!(tree.leaf_size, 0);
    assert_eq!(tree.digests.len(), 0);
    assert_eq!(tree.cap.len(), 0);
}

#[test]
fn tampered_leaf_or_sibling_fails() {
    let tree = MerkleTreeGpu::<F, H>::new(random_leaves(16, 4), 4, 1);
    let leaf = tree.get(3).to_vec();
    let proof = tree.prove(3);
    assert_eq!(proof.siblings.len(), 3);
    assert!(verify_merkle_proof_to_cap(leaf.clone(), 3, &tree.cap, &proof).is_ok());
    assert!(verify_merkle_proof_to_cap(leaf.clone(), 2, &tree.cap, &proof).is_err());
    let mut other = leaf;
    other[0] = other[0] + F::one();
    assert!(verify_merkle_proof_to_cap(other, 3, &tree.cap, &proof).is_err());
}

#[test]
fn trees_for_the_device() {
    assert!(should_use_gpu_merkle(1024, 5, HasherType::Poseidon));
    assert!(should_use_gpu_merkle(1024, 6, HasherType::PoseidonBN128));
    assert!(should_use_gpu_merkle(131072, 8, HasherType::Poseidon));
    assert!(!should_use_gpu_merkle(1024, 4, HasherType::Poseidon));
    assert!(!should_use_gpu_merkle(1023, 8, HasherType::Poseidon));
    assert!(!should_use_gpu_merkle(131073, 8, HasherType::Poseidon));
    assert!(!should_use_gpu_merkle(1024, 8, HasherType::Keccak));
    assert_eq!(HasherType::Poseidon.code(), 0);
    assert_eq!(HasherType::Keccak.code(), 1);
    assert_eq!(HasherType::PoseidonBN128.code(), 2);
}

#[test]
fn device_builds_the_host_tree() {
    for cap_height in [0, 4, 10] {
        let leaves = random_leaves(1024, 8);
        let request = MerkleTreeGpu::<F, H>::device_request(&leaves, 8, cap_height)
            .expect("belongs on the device");
        assert_eq!(request.leaves_count, 1024);
        assert_eq!(request.leaf_size, 8);
        assert_eq!(request.cap_height, cap_height as u64);
        assert_eq!(request.cap_len, 1 << cap_height);
        assert_eq!(request.digests_len, 2 * (1024 - (1 << cap_height)));
        assert_eq!(request.caps_size, 4 << cap_height);
        let expected = if cap_height == 10 { 4 } else { 4 * request.digests_len as usize };
        assert_eq!(request.digests_size, expected);
        assert_eq!(request.hash_type, 0);
        let (digests, caps) = run(&request);
        let tree =
            MerkleTreeGpu::<F, H>::from_device(leaves.clone(), 8, cap_height, &digests, &caps);
        assert_eq!(tree, MerkleTreeGpu::<F, H>::new(leaves, 8, cap_height));
    }
}

#[test]
fn small_and_keccak_trees_stay_on_the_host() {
    assert!(MerkleTreeGpu::<F, H>::device_request(&random_leaves(512, 8), 8, 0).is_none());
    assert!(MerkleTreeGpu::<F, H>::device_request(&random_leaves(1024, 4), 4, 0).is_none());
    assert!(MerkleTreeGpu::<F, Short>::device_request(&random_leaves(1024, 8), 8, 0).is_none());
    assert!(MerkleTreeGpu::<F, H>::device_request(&random_leaves(1024, 5), 5, 0).is_some());
}

#[test]
fn digests_are_read_from_little_endian_words() {
    let words = [0x0807060504030201, 0x100F0E0D0C0B0A09, 0x1817161514131211, 0x201F1E1D1C1B1A19];
    let digests = decode_digests::<F, Short>(&words, 1);
    let expected: Vec<u8> = (1..26).collect();
    assert_eq!(digests[0].to_vec(), expected);
    let digests = decode_digests::<F, H>(&words, 1);
    assert_eq!(digests[0], words);
    assert_eq!(decode_digests::<F, H>(&words, 0).len(), 0);
}

fn root_by_halves(leaves: &[Vec<F>]) -> [u64; 4] {
    if leaves.len() == 1 {
        return H::hash_or_noop(&leaves[0]);
    }
    let (left, right) = leaves.split_at(leaves.len() / 2);
    H::two_to_one(root_by_halves(left), root_by_halves(right))
}

#[test]
fn cap_holds_the_roots_by_halves() {
    let leaves = random_leaves(32, 3);
    let leaves_2d: Vec<Vec<F>> = leaves.chunks_exact(3).map(|c| c.to_vec()).collect();
    for cap_height in 0..=5 {
        let tree = MerkleTreeGpu::<F, H>::new(leaves.clone(), 3, cap_height);
        let expected: Vec<[u64; 4]> =
            leaves_2d.chunks_exact(32 >> cap_height).map(root_by_halves).collect();
        assert_eq!(tree.cap.0, expected);
    }
}
