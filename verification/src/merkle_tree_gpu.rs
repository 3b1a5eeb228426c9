//! Merkle trees whose digests are stored in the linear layout of the device.
use vstd::prelude::*;
use vstd::arithmetic::div_mod::*;
use vstd::arithmetic::mul::*;
use vstd::arithmetic::power2::*;
use crate::bits;
use crate::goldilocks::RichField;
use crate::hasher::Hasher;
use crate::merkle_layout;
use crate::rows;

verus! {

/// The roots of the subtrees that a tree is cut into.
#[derive(Clone, Debug, Eq, PartialEq)]
pub struct MerkleCap<F, H: Hasher<F>>(pub Vec<H::Hash>);

impl<F, H: Hasher<F>> MerkleCap<F, H> {
    /// The number of subtrees.
    pub fn len(&self) -> (r: usize)
        ensures
            r == self.0@.len(),
    {
        self.0.len()
    }
}

impl<F, H: Hasher<F>> Default for MerkleCap<F, H> {
    fn default() -> (r: Self)
        ensures
            r.0@.len() == 0,
    {
        MerkleCap(Vec::new())
    }
}

/// The siblings on the path from a leaf to the cap, bottom-up.
#[derive(Clone, Debug, Eq, PartialEq)]
pub struct MerkleProof<F, H: Hasher<F>> {
    pub siblings: Vec<H::Hash>,
}

/// A Merkle tree with its digests in the linear layout.
///
/// The digests of a subtree are contiguous, level by level, the level closest to the
/// root first and the leaf digests last. The subtrees follow one another.
#[derive(Clone, Debug, Eq, PartialEq)]
pub struct MerkleTreeGpu<F: RichField, H: Hasher<F>> {
    /// All leaves, one after the other.
    pub leaves: Vec<F>,
    /// Number of elements of a leaf.
    pub leaf_size: usize,
    /// The digests below the cap.
    pub digests: Vec<H::Hash>,
    /// The roots of the subtrees.
    pub cap: MerkleCap<F, H>,
}

/// Builds the subtree over `leaves`: its digests in the linear layout, and its root.
///
/// The leaf digests stand at the end; each level above stands right before the level
/// that it was computed from.
pub fn fill_subtree_linear<F, H: Hasher<F>>(leaves: &[F], leaf_size: usize) -> (r: (
    Vec<H::Hash>,
    H::Hash,
))
    requires
        leaf_size > 0,
        leaves@.len() % leaf_size as nat == 0,
        bits::is_power_of_two(leaves@.len() / leaf_size as nat),
        2 * (leaves@.len() / leaf_size as nat) - 2 <= usize::MAX,
    ensures
        merkle_layout::is_linear_subtree::<F, H>(
            r.0@,
            leaves@,
            leaf_size as nat,
            bits::log2(leaves@.len() / leaf_size as nat),
        ),
        r.1 == merkle_layout::node::<F, H>(
            leaves@,
            leaf_size as nat,
            bits::log2(leaves@.len() / leaf_size as nat),
            0,
        ),
{
    let ghost ls = leaf_size as nat;
    let total: usize = leaves.len();
    let leaves_count: usize = total / leaf_size;
    let ghost lg = bits::log2(leaves_count as nat);
    proof {
        lemma2_to64();
        lemma_pow2_pos(lg);
        lemma_fundamental_div_mod(leaves@.len() as int, leaf_size as int);
        lemma_mul_is_commutative(leaf_size as int, leaves_count as int);
    }
    // A single leaf is its own root.
    if leaves_count == 1 {
        let hash = H::hash_or_noop(leaves);
        proof {
            assert(merkle_layout::leaf_at(leaves@, ls, 0) =~= leaves@);
        }
        return (Vec::new(), hash);
    }
    proof {
        bits::lemma_power_of_two_half(leaves_count as nat);
        lemma_mul_inequality(1, leaves_count as int, leaf_size as int);
    }
    let lg_count: usize = bits::log2_strict(leaves_count);
    let len: usize = 2 * (leaves_count - 1);
    assert(leaf_size <= leaves@.len());
    let (first, _) = leaves.split_at(leaf_size);
    let mut digests: Vec<H::Hash> = vec![H::hash_or_noop(first); len];

    // Leaf digests.
    let mut leaf_idx: usize = 0;
    while leaf_idx < leaves_count
        invariant
            leaf_idx <= leaves_count,
            leaf_size > 0,
            ls == leaf_size,
            total == leaves@.len(),
            total == leaves_count * leaf_size,
            digests@.len() == len,
            len == 2 * (leaves_count - 1),
            leaves_count > 1,
            forall|pos: nat|
                pos < leaf_idx ==> digests@[len - leaves_count + pos]
                    == #[trigger] merkle_layout::node::<F, H>(leaves@, ls, 0, pos),
        decreases leaves_count - leaf_idx,
    {
        proof {
            lemma_mul_inequality((leaf_idx + 1) as int, leaves_count as int, leaf_size as int);
            lemma_mul_is_distributive_add_other_way(leaf_size as int, leaf_idx as int, 1);
            lemma_mul_nonnegative(leaf_idx as int, leaf_size as int);
        }
        let start: usize = leaf_idx * leaf_size;
        let leaf = &leaves[start..start + leaf_size];
        assert(leaf@ == merkle_layout::leaf_at(leaves@, ls, leaf_idx as nat));
        digests[len - leaves_count + leaf_idx] = H::hash_or_noop(leaf);
        leaf_idx = leaf_idx + 1;
    }

    // Inner nodes, from the leaves towards the root.
    let mut last_index: usize = len - leaves_count;
    let mut level_log: usize = lg_count - 1;
    while level_log >= 1
        invariant
            level_log < lg_count,
            lg == lg_count,
            leaves_count == pow2(lg),
            last_index == pow2((level_log + 1) as nat) - 2,
            digests@.len() == len,
            len == 2 * (leaves_count - 1),
            forall|level: nat, pos: nat|
                level < lg - level_log && pos < pow2((lg - level) as nat)
                    ==> digests@[merkle_layout::level_start(lg, level) + pos]
                    == #[trigger] merkle_layout::node::<F, H>(leaves@, ls, level, pos),
        decreases level_log,
    {
        let ghost height = (lg - level_log) as nat;
        proof {
            lemma_pow2_unfold((level_log + 1) as nat);
            bits::lemma_pow2_monotone((level_log + 1) as nat, lg);
            bits::lemma_pow2_monotone(1, level_log as nat);
            lemma2_to64();
        }
        let level_size: usize = bits::pow2_exec(level_log);
        let ghost below = digests@;
        let mut idx: usize = last_index - level_size;
        while idx < last_index
            invariant
                last_index - level_size <= idx <= last_index,
                level_size == pow2(level_log as nat),
                level_size >= 2,
                1 <= level_log < lg_count,
                lg == lg_count,
                height == lg - level_log,
                leaves_count == pow2(lg),
                2 * level_size <= leaves_count,
                last_index == 2 * level_size - 2,
                digests@.len() == len,
                len == 2 * (leaves_count - 1),
                below.len() == len,
                forall|k: int| last_index <= k < len ==> digests@[k] == below[k],
                forall|level: nat, pos: nat|
                    level < height && pos < pow2((lg - level) as nat)
                        ==> below[merkle_layout::level_start(lg, level) + pos]
                        == #[trigger] merkle_layout::node::<F, H>(leaves@, ls, level, pos),
                forall|pos: nat|
                    pos < idx - (last_index - level_size) ==> digests@[last_index - level_size
                        + pos] == #[trigger] merkle_layout::node::<F, H>(leaves@, ls, height, pos),
            decreases last_index - idx,
        {
            let ghost t = (idx - (last_index - level_size)) as nat;
            let left_idx: usize = 2 * (idx + 1) - last_index;
            let right_idx: usize = left_idx + 1;
            proof {
                lemma_pow2_unfold((level_log + 1) as nat);
                assert((lg - (height - 1)) as nat == (level_log + 1) as nat);
                assert(left_idx == 2 * t);
                assert(below[merkle_layout::level_start(lg, (height - 1) as nat) + 2 * t]
                    == merkle_layout::node::<F, H>(leaves@, ls, (height - 1) as nat, 2 * t));
                assert(below[merkle_layout::level_start(lg, (height - 1) as nat) + (2 * t + 1)]
                    == merkle_layout::node::<F, H>(leaves@, ls, (height - 1) as nat, 2 * t + 1));
            }
            let left = digests[last_index + left_idx];
            let right = digests[last_index + right_idx];
            digests[idx] = H::two_to_one(left, right);
            idx = idx + 1;
        }
        proof {
            assert forall|level: nat, pos: nat|
                level < lg - level_log + 1 && pos < pow2(
                    (lg - level) as nat,
                ) implies digests@[merkle_layout::level_start(lg, level) + pos]
                == #[trigger] merkle_layout::node::<F, H>(leaves@, ls, level, pos) by {
                if level < height {
                    bits::lemma_pow2_monotone((level_log + 1) as nat, (lg - level) as nat);
                    bits::lemma_pow2_monotone((lg - level) as nat, lg);
                } else {
                    assert((lg - level) as nat == level_log as nat);
                }
            }
        }
        last_index = last_index - level_size;
        level_log = level_log - 1;
    }
    proof {
        lemma_pow2_unfold(1);
        assert(digests@[merkle_layout::level_start(lg, (lg - 1) as nat) + 0]
            == merkle_layout::node::<F, H>(leaves@, ls, (lg - 1) as nat, 0));
        assert(digests@[merkle_layout::level_start(lg, (lg - 1) as nat) + 1]
            == merkle_layout::node::<F, H>(leaves@, ls, (lg - 1) as nat, 1));
    }
    let root = H::two_to_one(digests[0], digests[1]);
    (digests, root)
}

/// Fills the digests and the cap of a tree on the host.
///
/// The leaves are cut into `2^cap_height` subtrees of equal size. The roots of the
/// subtrees are the cap; their inner digests follow one another.
pub fn fill_digests_buf_cpu_rust<F, H: Hasher<F>>(
    leaves: &[F],
    leaf_size: usize,
    cap_height: usize,
) -> (r: (Vec<H::Hash>, Vec<H::Hash>))
    requires
        leaf_size > 0,
        bits::is_power_of_two(leaves@.len() / leaf_size as nat),
        cap_height <= bits::log2(leaves@.len() / leaf_size as nat),
        2 * (leaves@.len() / leaf_size as nat - pow2(cap_height as nat)) <= usize::MAX,
    ensures
        merkle_layout::is_linear_forest::<F, H>(
            r.0@,
            leaves@,
            leaf_size as nat,
            (bits::log2(leaves@.len() / leaf_size as nat) - cap_height) as nat,
            pow2(cap_height as nat),
        ),
        merkle_layout::is_cap::<F, H>(
            r.1@,
            leaves@,
            leaf_size as nat,
            (bits::log2(leaves@.len() / leaf_size as nat) - cap_height) as nat,
            pow2(cap_height as nat),
        ),
{
    let ghost ls = leaf_size as nat;
    let total: usize = leaves.len();
    let leaves_count: usize = total / leaf_size;
    let ghost lg = bits::log2(leaves_count as nat);
    let ghost layers = (lg - cap_height) as nat;
    proof {
        lemma_pow2_pos(lg);
        lemma_fundamental_div_mod(total as int, leaf_size as int);
        lemma_mul_is_commutative(leaf_size as int, leaves_count as int);
        bits::lemma_pow2_split(lg, cap_height as nat);
        bits::lemma_pow2_split(lg, layers);
        lemma_pow2_pos(layers);
    }
    let len_cap: usize = bits::pow2_exec(cap_height);
    let subtree_leaves_len: usize = leaves_count / len_cap;
    let mut digests: Vec<H::Hash> = Vec::new();
    let mut cap: Vec<H::Hash> = Vec::new();
    let mut subtree: usize = 0;
    proof {
        lemma_mul_is_commutative(len_cap as int, subtree_leaves_len as int);
        assert(2 * subtree_leaves_len - 2 <= 2 * (leaves_count - len_cap)) by (nonlinear_arith)
            requires
                leaves_count == len_cap * subtree_leaves_len,
                len_cap >= 1,
                subtree_leaves_len >= 1,
        ;
        lemma_mul_by_zero_is_zero(merkle_layout::subtree_digest_size(layers));
    }
    while subtree < len_cap
        invariant
            subtree <= len_cap,
            leaf_size > 0,
            ls == leaf_size,
            total == leaves@.len(),
            leaves_count * leaf_size <= total,
            leaves_count == len_cap * subtree_leaves_len,
            subtree_leaves_len == pow2(layers),
            subtree_leaves_len >= 1,
            2 * subtree_leaves_len - 2 <= usize::MAX,
            merkle_layout::is_linear_forest::<F, H>(digests@, leaves@, ls, layers, subtree as nat),
            merkle_layout::is_cap::<F, H>(cap@, leaves@, ls, layers, subtree as nat),
        decreases len_cap - subtree,
    {
        let ghost first = subtree as nat * pow2(layers);
        proof {
            lemma_mul_inequality(
                (subtree + 1) as int,
                len_cap as int,
                subtree_leaves_len as int,
            );
            lemma_mul_is_distributive_add_other_way(subtree_leaves_len as int, subtree as int, 1);
            lemma_mul_nonnegative(subtree as int, subtree_leaves_len as int);
            lemma_mul_inequality(
                (first + subtree_leaves_len) as int,
                leaves_count as int,
                leaf_size as int,
            );
            lemma_mul_is_distributive_add_other_way(
                leaf_size as int,
                first as int,
                subtree_leaves_len as int,
            );
            lemma_mul_nonnegative(first as int, leaf_size as int);
            lemma_mul_nonnegative(subtree_leaves_len as int, leaf_size as int);
            lemma_mod_multiples_basic(subtree_leaves_len as int, leaf_size as int);
            lemma_div_by_multiple(subtree_leaves_len as int, leaf_size as int);
            bits::lemma_log2_pow2(layers);
        }
        let start: usize = subtree * subtree_leaves_len * leaf_size;
        let part = &leaves[start..start + subtree_leaves_len * leaf_size];
        let (mut part_digests, root) = fill_subtree_linear::<F, H>(part, leaf_size);
        proof {
            merkle_layout::lemma_forest_extend::<F, H>(
                digests@,
                part_digests@,
                leaves@,
                ls,
                layers,
                subtree as nat,
            );
            lemma_mul_basics(pow2(layers) as int);
            merkle_layout::lemma_node_of_part::<F, H>(
                leaves@,
                ls,
                first,
                pow2(layers),
                layers,
                subtree as nat,
                0,
            );
        }
        digests.append(&mut part_digests);
        cap.push(root);
        subtree = subtree + 1;
    }
    (digests, cap)
}

impl<F: RichField, H: Hasher<F>> Default for MerkleTreeGpu<F, H> {
    /// A tree without leaves, digests or cap.
    fn default() -> (r: Self)
        ensures
            r.leaves@.len() == 0,
            r.leaf_size == 0,
            r.digests@.len() == 0,
            r.cap.0@.len() == 0,
    {
        MerkleTreeGpu {
            leaves: Vec::new(),
            leaf_size: 0,
            digests: Vec::new(),
            cap: MerkleCap::default(),
        }
    }
}

impl<F: RichField, H: Hasher<F>> MerkleTreeGpu<F, H> {
    /// The number of whole leaves.
    pub open spec fn count(&self) -> nat {
        self.leaves@.len() / self.leaf_size as nat
    }

    /// The number of layers between the leaves and the cap.
    pub open spec fn layers(&self) -> int {
        bits::log2(self.count()) - bits::log2(self.cap.0@.len())
    }

    /// There are as many digests as the leaves and the cap call for.
    pub open spec fn has_shape(&self) -> bool {
        &&& self.leaf_size > 0
        &&& bits::is_power_of_two(self.count())
        &&& bits::is_power_of_two(self.cap.0@.len())
        &&& self.layers() >= 0
        &&& self.digests@.len() == self.cap.0@.len() * merkle_layout::subtree_digest_size(
            self.layers() as nat,
        )
    }

    /// The digests and the cap are those of the leaves.
    pub open spec fn wf(&self) -> bool {
        &&& self.has_shape()
        &&& merkle_layout::is_linear_forest::<F, H>(
            self.digests@,
            self.leaves@,
            self.leaf_size as nat,
            self.layers() as nat,
            self.cap.0@.len(),
        )
        &&& merkle_layout::is_cap::<F, H>(
            self.cap.0@,
            self.leaves@,
            self.leaf_size as nat,
            self.layers() as nat,
            self.cap.0@.len(),
        )
    }

    /// The tree with `2^cap_height` subtrees over these leaves.
    pub open spec fn is_built(&self, leaves: Seq<F>, leaf_size: usize, cap_height: usize) -> bool {
        &&& self.leaves@ == leaves
        &&& self.leaf_size == leaf_size
        &&& self.cap.0@.len() == pow2(cap_height as nat)
        &&& self.wf()
    }

    /// A tree with `2^cap_height` subtrees over these leaves can be built.
    pub open spec fn can_build(leaves: Seq<F>, leaf_size: usize, cap_height: usize) -> bool {
        &&& leaf_size > 0
        &&& bits::is_power_of_two(leaves.len() / leaf_size as nat)
        &&& cap_height <= bits::log2(leaves.len() / leaf_size as nat)
        &&& 2 * (leaves.len() / leaf_size as nat - pow2(cap_height as nat)) <= usize::MAX
    }

    /// Builds the tree over flattened leaf data on the host.
    pub fn new(leaves: Vec<F>, leaf_size: usize, cap_height: usize) -> (r: Self)
        requires
            Self::can_build(leaves@, leaf_size, cap_height),
        ensures
            r.is_built(leaves@, leaf_size, cap_height),
            r.leaves == leaves,
            r.leaf_size == leaf_size,
            r.cap.0@.len() == pow2(cap_height as nat),
            r.digests@.len() == 2 * (r.count() - pow2(cap_height as nat)),
            r.wf(),
            forall|i: usize| i < r.count() ==> #[trigger] r.can_prove(i),
    {
        let (digests, cap) = fill_digests_buf_cpu_rust::<F, H>(
            leaves.as_slice(),
            leaf_size,
            cap_height,
        );
        proof {
            lemma_forest_size(leaves@.len() / leaf_size as nat, cap_height as nat);
        }
        let tree = MerkleTreeGpu { leaves, leaf_size, digests, cap: MerkleCap(cap) };
        proof {
            lemma_can_prove(tree);
        }
        tree
    }

    /// Builds the tree over leaves that are given one by one, on the host.
    pub fn from_2d(leaves_2d: Vec<Vec<F>>, cap_height: usize) -> (r: Self)
        requires
            leaves_2d@.len() > 0,
            Self::can_build(rows::flattened(rows::views(leaves_2d@)), leaves_2d@[0].len(), cap_height),
        ensures
            r.is_built(
                rows::flattened(rows::views(leaves_2d@)),
                leaves_2d@[0].len(),
                cap_height,
            ),
            r.leaves@ == rows::flattened(rows::views(leaves_2d@)),
            r.leaf_size == leaves_2d@[0]@.len(),
            r.cap.0@.len() == pow2(cap_height as nat),
            r.digests@.len() == 2 * (r.count() - pow2(cap_height as nat)),
            r.wf(),
            forall|i: usize| i < r.count() ==> #[trigger] r.can_prove(i),
    {
        let leaf_size: usize = leaves_2d[0].len();
        let leaves = rows::flatten(leaves_2d.as_slice());
        Self::new(leaves, leaf_size, cap_height)
    }

    /// Leaf `i`.
    pub fn get(&self, i: usize) -> (r: &[F])
        requires
            (i + 1) * self.leaf_size <= self.leaves@.len(),
        ensures
            r@ == merkle_layout::leaf_at(self.leaves@, self.leaf_size as nat, i as nat),
            r@.len() == self.leaf_size,
            forall|j: int|
                0 <= j < r@.len() ==> #[trigger] r@[j] == self.leaves@[i * self.leaf_size + j],
    {
        let total: usize = self.leaves.len();
        proof {
            lemma_mul_is_distributive_add_other_way(self.leaf_size as int, i as int, 1);
            lemma_mul_nonnegative(i as int, self.leaf_size as int);
            merkle_layout::lemma_leaf_elements(self.leaves@, self.leaf_size as nat, i as nat);
        }
        let start: usize = i * self.leaf_size;
        &self.leaves.as_slice()[start..start + self.leaf_size]
    }

    /// The whole leaves, one by one.
    pub fn get_leaves_2d(&self) -> (r: Vec<Vec<F>>)
        requires
            self.leaf_size > 0,
        ensures
            r@.len() == self.count(),
            forall|i: int|
                0 <= i < r@.len() ==> (#[trigger] r@[i])@ == merkle_layout::leaf_at(
                    self.leaves@,
                    self.leaf_size as nat,
                    i as nat,
                ),
    {
        let count: usize = self.leaves_count();
        let mut r: Vec<Vec<F>> = Vec::new();
        let mut i: usize = 0;
        proof {
            lemma_fundamental_div_mod(self.leaves@.len() as int, self.leaf_size as int);
            lemma_mul_is_commutative(self.leaf_size as int, count as int);
        }
        while i < count
            invariant
                i <= count,
                count * self.leaf_size <= self.leaves@.len(),
                r@.len() == i,
                forall|k: int|
                    0 <= k < i ==> (#[trigger] r@[k])@ == merkle_layout::leaf_at(
                        self.leaves@,
                        self.leaf_size as nat,
                        k as nat,
                    ),
            decreases count - i,
        {
            proof {
                lemma_mul_inequality((i + 1) as int, count as int, self.leaf_size as int);
            }
            let leaf = self.get(i);
            let copy = rows::copy_range(leaf, 0, leaf.len());
            proof {
                assert(copy@ =~= leaf@);
            }
            r.push(copy);
            i = i + 1;
        }
        r
    }

    /// The number of whole leaves.
    pub fn leaves_count(&self) -> (r: usize)
        requires
            self.leaf_size > 0,
        ensures
            r == self.count(),
    {
        self.leaves.len() / self.leaf_size
    }

    /// A proof for leaf `leaf_index` can be read off the digests.
    pub open spec fn can_prove(&self, leaf_index: usize) -> bool {
        &&& self.leaf_size > 0
        &&& bits::is_power_of_two(self.count())
        &&& bits::is_power_of_two(self.cap.0@.len())
        &&& self.layers() >= 0
        &&& 2 * pow2(self.layers() as nat) - 2 <= usize::MAX
        &&& forall|level: nat|
            level < self.layers() ==> #[trigger] merkle_layout::sibling_position(
                self.layers() as nat,
                leaf_index as nat,
                level,
            ) < self.digests@.len()
    }

    /// The siblings on the path of leaf `leaf_index`, bottom-up.
    pub fn prove(&self, leaf_index: usize) -> (r: MerkleProof<F, H>)
        requires
            self.can_prove(leaf_index),
        ensures
            r.siblings@ == merkle_layout::stored_siblings(
                self.digests@,
                self.layers() as nat,
                leaf_index as nat,
            ),
            r.siblings@.len() == self.layers(),
            self.wf() && leaf_index < self.count() ==> merkle_layout::path_root::<F, H>(
                H::spec_hash_or_noop(
                    merkle_layout::leaf_at(
                        self.leaves@,
                        self.leaf_size as nat,
                        leaf_index as nat,
                    ),
                ),
                leaf_index as nat,
                r.siblings@,
            ) == self.cap.0@[(leaf_index as nat / pow2(self.layers() as nat)) as int],
    {
        proof {
            if self.wf() && leaf_index < self.count() {
                lemma_proof_reaches_cap(*self, leaf_index as nat);
            }
        }
        let cap_height: usize = bits::log2_strict(self.cap.len());
        let leaves_count: usize = self.leaves_count();
        let num_layers: usize = bits::log2_strict(leaves_count) - cap_height;
        let ghost layers = num_layers as nat;
        let mut siblings: Vec<H::Hash> = Vec::new();
        if num_layers == 0 {
            assert(siblings@ =~= merkle_layout::stored_siblings(
                self.digests@,
                layers,
                leaf_index as nat,
            ));
            return MerkleProof { siblings };
        }
        proof {
            lemma2_to64();
            bits::lemma_pow2_monotone(1, layers);
        }
        let leaves_per_subtree: usize = bits::pow2_exec(num_layers);
        let subtree_digest_size: usize = 2 * (leaves_per_subtree - 1);
        let subtree_idx: usize = leaf_index / leaves_per_subtree;
        let idx_in_subtree: usize = leaf_index % leaves_per_subtree;

        // The leaf level comes last.
        let mut idx: usize = leaves_per_subtree - 2 + idx_in_subtree;
        let mut i: usize = 0;
        proof {
            lemma_div_basics(idx_in_subtree as int);
        }
        while i < num_layers
            invariant
                i <= num_layers,
                self.can_prove(leaf_index),
                layers == self.layers(),
                layers == num_layers,
                leaves_per_subtree == pow2(layers),
                2 * leaves_per_subtree - 2 <= usize::MAX,
                subtree_digest_size == 2 * leaves_per_subtree - 2,
                subtree_idx == leaf_index as nat / pow2(layers),
                idx_in_subtree == leaf_index as nat % pow2(layers),
                i < num_layers ==> idx == merkle_layout::level_start(layers, i as nat)
                    + idx_in_subtree as nat / pow2(i as nat),
                siblings@.len() == i,
                forall|k: int|
                    0 <= k < i ==> #[trigger] siblings@[k]
                        == self.digests@[merkle_layout::sibling_position(
                        layers,
                        leaf_index as nat,
                        k as nat,
                    )],
            decreases num_layers - i,
        {
            let ghost within = idx_in_subtree as nat / pow2(i as nat);
            proof {
                lemma2_to64();
                lemma_pow2_pos(i as nat);
                lemma_div_pos_is_pos(idx_in_subtree as int, pow2(i as nat) as int);
                bits::lemma_pow2_monotone(1, (layers - i) as nat);
                bits::lemma_pow2_monotone((layers - i) as nat, layers);
                merkle_layout::lemma_path_index(layers, leaf_index as nat, i as nat);
            }
            let level_size: usize = bits::pow2_exec(num_layers - i);
            let level_start: usize = level_size - 2;
            let pos_in_level: usize = idx - level_start;

            // The other child of the same parent differs in the last bit.
            let sibling_pos: usize = pos_in_level ^ 1;
            proof {
                assert(pos_in_level ^ 1 == if pos_in_level % 2 == 0 {
                    pos_in_level + 1
                } else {
                    pos_in_level - 1
                }) by (bit_vector);
                assert(sibling_pos == merkle_layout::sibling(within));
                merkle_layout::lemma_digest_position_bound(
                    layers,
                    subtree_idx as nat,
                    i as nat,
                    sibling_pos as nat,
                );
                assert(merkle_layout::sibling_position(layers, leaf_index as nat, i as nat)
                    < self.digests@.len());
            }
            let total: usize = self.digests.len();
            let abs_idx: usize = subtree_idx * subtree_digest_size + (level_start + sibling_pos);
            siblings.push(self.digests[abs_idx]);

            if i + 1 < num_layers {
                proof {
                    lemma_pow2_unfold((layers - i) as nat);
                    lemma_pow2_unfold((i + 1) as nat);
                    lemma_pow2_pos(i as nat);
                    lemma_div_denominator(idx_in_subtree as int, pow2(i as nat) as int, 2);
                    lemma_mul_is_commutative(pow2(i as nat) as int, 2);
                    bits::lemma_pow2_monotone(1, (layers - i - 1) as nat);
                }
                let parent_level_start: usize = level_size / 2 - 2;
                idx = parent_level_start + pos_in_level / 2;
            }
            i = i + 1;
        }
        proof {
            assert(siblings@ =~= merkle_layout::stored_siblings(
                self.digests@,
                layers,
                leaf_index as nat,
            ));
        }
        MerkleProof { siblings }
    }
}

/// The number of digests of a forest of `2^cap_height` subtrees over `count` leaves.
pub proof fn lemma_forest_size(count: nat, cap_height: nat)
    requires
        bits::is_power_of_two(count),
        cap_height <= bits::log2(count),
    ensures
        pow2(cap_height) * merkle_layout::subtree_digest_size(
            (bits::log2(count) - cap_height) as nat,
        ) == 2 * (count - pow2(cap_height)),
        bits::log2(pow2(cap_height)) == cap_height,
        bits::is_power_of_two(pow2(cap_height)),
{
    let layers = (bits::log2(count) - cap_height) as nat;
    bits::lemma_pow2_split(bits::log2(count), cap_height);
    bits::lemma_log2_pow2(cap_height);
    let a = pow2(cap_height) as int;
    let b = pow2(layers) as int;
    assert(a * (2 * b - 2) == 2 * (b * a - a)) by (nonlinear_arith);
}

/// Every leaf of a tree with all its digests can be proved.
pub proof fn lemma_can_prove<F: RichField, H: Hasher<F>>(tree: MerkleTreeGpu<F, H>)
    requires
        tree.has_shape(),
    ensures
        forall|i: usize| i < tree.count() ==> #[trigger] tree.can_prove(i),
{
    let layers = tree.layers() as nat;
    let subtrees = tree.cap.0@.len();
    let size = merkle_layout::subtree_digest_size(layers);
    lemma_pow2_pos(bits::log2(subtrees));
    lemma_pow2_pos(layers);
    bits::lemma_pow2_split(bits::log2(tree.count()), layers);
    lemma_mul_is_commutative(subtrees as int, pow2(layers) as int);
    assert(size <= subtrees * size) by (nonlinear_arith)
        requires
            size >= 0,
            subtrees >= 1,
    ;
    assert(tree.digests.len() <= usize::MAX);
    assert forall|i: usize| i < tree.count() implies #[trigger] tree.can_prove(i) by {
        let subtree = i as nat / pow2(layers);
        lemma_multiply_divide_lt(i as int, pow2(layers) as int, subtrees as int);
        lemma_div_pos_is_pos(i as int, pow2(layers) as int);
        lemma_mul_inequality((subtree + 1) as int, subtrees as int, size);
        assert forall|level: nat| level < layers implies #[trigger] merkle_layout::sibling_position(
            layers,
            i as nat,
            level,
        ) < tree.digests@.len() by {
            merkle_layout::lemma_path_index(layers, i as nat, level);
            lemma_pow2_pos(level);
            merkle_layout::lemma_digest_position_bound(
                layers,
                subtree,
                level,
                merkle_layout::sibling((i as nat % pow2(layers)) / pow2(level)),
            );
        }
    }
}

/// In a well-built tree, the digest of every leaf and the siblings of its proof lead
/// to the entry of the cap that covers the leaf.
pub proof fn lemma_proof_reaches_cap<F: RichField, H: Hasher<F>>(
    tree: MerkleTreeGpu<F, H>,
    leaf_index: nat,
)
    requires
        tree.wf(),
        leaf_index < tree.count(),
    ensures
        leaf_index / pow2(tree.layers() as nat) < tree.cap.0@.len(),
        merkle_layout::path_root::<F, H>(
            H::spec_hash_or_noop(
                merkle_layout::leaf_at(tree.leaves@, tree.leaf_size as nat, leaf_index),
            ),
            leaf_index,
            merkle_layout::stored_siblings(tree.digests@, tree.layers() as nat, leaf_index),
        ) == tree.cap.0@[(leaf_index / pow2(tree.layers() as nat)) as int],
{
    let layers = tree.layers() as nat;
    let subtrees = tree.cap.0@.len();
    bits::lemma_pow2_split(bits::log2(tree.count()), layers);
    lemma_pow2_pos(layers);
    lemma_mul_is_commutative(subtrees as int, pow2(layers) as int);
    lemma_multiply_divide_lt(leaf_index as int, pow2(layers) as int, subtrees as int);
    lemma_div_pos_is_pos(leaf_index as int, pow2(layers) as int);
    merkle_layout::lemma_path_reaches_root::<F, H>(
        tree.digests@,
        tree.leaves@,
        tree.leaf_size as nat,
        layers,
        subtrees,
        leaf_index,
    );
}

/// A well-built tree has exactly one sequence of digests and one cap.
pub proof fn lemma_tree_unique<F: RichField, H: Hasher<F>>(
    a: MerkleTreeGpu<F, H>,
    b: MerkleTreeGpu<F, H>,
)
    requires
        a.wf(),
        b.wf(),
        a.leaves@ == b.leaves@,
        a.leaf_size == b.leaf_size,
        a.cap.0@.len() == b.cap.0@.len(),
    ensures
        a.digests@ == b.digests@,
        a.cap.0@ == b.cap.0@,
{
    let layers = a.layers() as nat;
    let size = merkle_layout::subtree_digest_size(layers);
    assert forall|q: int| 0 <= q < a.digests@.len() implies a.digests@[q] == b.digests@[q] by {
        merkle_layout::lemma_position_covered(layers, a.cap.0@.len(), q);
        let (subtree, level, pos) = choose|subtree: nat, level: nat, pos: nat|
            subtree < a.cap.0@.len() && level < layers && pos < pow2((layers - level) as nat)
                && #[trigger] merkle_layout::digest_position(layers, subtree, level, pos) == q;
        assert(a.digests@[merkle_layout::digest_position(layers, subtree, level, pos)]
            == b.digests@[merkle_layout::digest_position(layers, subtree, level, pos)]);
    }
    assert(a.digests@ =~= b.digests@);
    assert forall|i: int| 0 <= i < a.cap.0@.len() implies a.cap.0@[i] == b.cap.0@[i] by {
        let n = merkle_layout::node::<F, H>(a.leaves@, a.leaf_size as nat, layers, i as nat);
        assert(a.cap.0@[i as nat as int] == n);
        assert(b.cap.0@[i as nat as int] == n);
    }
    assert(a.cap.0@ =~= b.cap.0@);
}

/// A tree gives back the leaves that `from_2d` was given, where they all have the same
/// length.
pub proof fn lemma_leaves_of_rows<F: RichField, H: Hasher<F>>(
    tree: MerkleTreeGpu<F, H>,
    leaves_2d: Seq<Vec<F>>,
)
    requires
        tree.leaf_size > 0,
        forall|i: int|
            0 <= i < leaves_2d.len() ==> (#[trigger] leaves_2d[i])@.len() == tree.leaf_size,
        tree.leaves@ == rows::flattened(rows::views(leaves_2d)),
    ensures
        tree.count() == leaves_2d.len(),
        forall|i: int|
            0 <= i < leaves_2d.len() ==> #[trigger] merkle_layout::leaf_at(
                tree.leaves@,
                tree.leaf_size as nat,
                i as nat,
            ) == leaves_2d[i]@,
{
    let m = rows::views(leaves_2d);
    let n = tree.leaf_size as nat;
    assert forall|i: int| 0 <= i < m.len() implies (#[trigger] m[i]).len() == n by {
        assert(leaves_2d[i]@.len() == tree.leaf_size);
    }
    rows::lemma_chunks_of_flattened(m, n);
    lemma_div_by_multiple(leaves_2d.len() as int, n as int);
    assert forall|i: int| 0 <= i < leaves_2d.len() implies #[trigger] merkle_layout::leaf_at(
        tree.leaves@,
        n,
        i as nat,
    ) == leaves_2d[i]@ by {
        lemma_mul_inequality(i + 1, leaves_2d.len() as int, n as int);
        assert(rows::chunk(tree.leaves@, n, i as nat) == m[i]);
    }
}

/// The cap of a well-built tree is that of the standard tree over the same leaves.
pub proof fn lemma_cap_is_standard<F: RichField, H: Hasher<F>>(
    tree: MerkleTreeGpu<F, H>,
    leaves_2d: Seq<Vec<F>>,
)
    requires
        tree.wf(),
        forall|i: int|
            0 <= i < leaves_2d.len() ==> (#[trigger] leaves_2d[i])@.len() == tree.leaf_size,
        tree.leaves@ == rows::flattened(rows::views(leaves_2d)),
    ensures
        tree.cap.0@ == merkle_layout::standard_cap::<F, H>(
            rows::views(leaves_2d),
            bits::log2(tree.cap.0@.len()),
        ),
{
    let leaves = rows::views(leaves_2d);
    let n = tree.leaf_size as nat;
    let layers = tree.layers() as nat;
    let subtrees = tree.cap.0@.len();
    lemma_leaves_of_rows(tree, leaves_2d);
    bits::lemma_pow2_split(bits::log2(tree.count()), layers);
    lemma_pow2_pos(layers);
    lemma_pow2_pos(bits::log2(subtrees));
    lemma_mul_is_commutative(subtrees as int, pow2(layers) as int);
    lemma_div_by_multiple(pow2(layers) as int, subtrees as int);
    assert forall|k: int| 0 <= k < leaves.len() implies #[trigger] merkle_layout::leaf_at(
        tree.leaves@,
        n,
        k as nat,
    ) == leaves[k] by {
        assert(leaves[k] == leaves_2d[k]@);
    }
    let standard = merkle_layout::standard_cap::<F, H>(leaves, bits::log2(subtrees));
    assert forall|i: int| 0 <= i < subtrees implies tree.cap.0@[i] == standard[i] by {
        lemma_mul_inequality(i + 1, subtrees as int, pow2(layers) as int);
        merkle_layout::lemma_node_is_root::<F, H>(tree.leaves@, n, leaves, layers, i as nat);
        assert(tree.cap.0@[i as nat as int] == merkle_layout::node::<F, H>(
            tree.leaves@,
            n,
            layers,
            i as nat,
        ));
    }
    assert(tree.cap.0@ =~= standard);
}

/// A well-built tree in plain terms. With `2^layers` leaves to a subtree, each subtree has
/// `2^(layers + 1) - 2` digests: the two below the root first, the leaf digests last. A leaf
/// digest is the hash of its leaf, every other digest is the compression of the two below
/// it, and so is a root, which stands in the cap.
pub proof fn lemma_tree_in_plain_terms<F: RichField, H: Hasher<F>>(
    tree: MerkleTreeGpu<F, H>,
    layers: nat,
    subtree: nat,
    level: nat,
    pos: nat,
)
    requires
        tree.wf(),
        tree.count() == tree.cap.0@.len() * pow2(layers),
        subtree < tree.cap.0@.len(),
    ensures
        tree.digests@.len() == tree.cap.0@.len() * (pow2(layers + 1) - 2),
        layers == 0 ==> tree.cap.0@[subtree as int] == H::spec_hash_or_noop(
            tree.leaves@.subrange(subtree * tree.leaf_size, (subtree + 1) * tree.leaf_size),
        ),
        layers > 0 ==> tree.cap.0@[subtree as int] == H::spec_two_to_one(
            tree.digests@[subtree * (pow2(layers + 1) - 2)],
            tree.digests@[subtree * (pow2(layers + 1) - 2) + 1],
        ),
        layers > 0 && pos < pow2(layers) ==> tree.digests@[subtree * (pow2(layers + 1) - 2) + pow2(
            layers,
        ) - 2 + pos] == H::spec_hash_or_noop(
            tree.leaves@.subrange(
                (subtree * pow2(layers) + pos) * tree.leaf_size,
                (subtree * pow2(layers) + pos + 1) * tree.leaf_size,
            ),
        ),
        0 < level < layers && pos < pow2((layers - level) as nat) ==> tree.digests@[subtree * (pow2(
            layers + 1,
        ) - 2) + pow2((layers - level) as nat) - 2 + pos] == H::spec_two_to_one(
            tree.digests@[subtree * (pow2(layers + 1) - 2) + pow2((layers - level + 1) as nat) - 2
                + 2 * pos],
            tree.digests@[subtree * (pow2(layers + 1) - 2) + pow2((layers - level + 1) as nat) - 2
                + 2 * pos + 1],
        ),
{
    let subtrees = tree.cap.0@.len();
    let ls = tree.leaf_size as nat;
    let size = merkle_layout::subtree_digest_size(layers);
    lemma2_to64();
    lemma_layers_from_counts(tree, layers);
    lemma_pow2_unfold(layers + 1);
    assert(tree.cap.0@[subtree as int] == merkle_layout::node::<F, H>(
        tree.leaves@,
        ls,
        layers,
        subtree,
    ));
    if layers > 0 {
        let top = (layers - 1) as nat;
        lemma_mul_is_commutative(subtree as int, 2);
        assert((layers - top) as nat == 1);
        assert(tree.digests@[merkle_layout::digest_position(layers, subtree, top, 0)]
            == merkle_layout::node::<F, H>(tree.leaves@, ls, top, subtree * pow2(1) + 0));
        assert(tree.digests@[merkle_layout::digest_position(layers, subtree, top, 1)]
            == merkle_layout::node::<F, H>(tree.leaves@, ls, top, subtree * pow2(1) + 1));
        assert(merkle_layout::digest_position(layers, subtree, top, 0) == subtree * size);
        if pos < pow2(layers) {
            assert(tree.digests@[merkle_layout::digest_position(layers, subtree, 0, pos)]
                == merkle_layout::node::<F, H>(
                tree.leaves@,
                ls,
                0,
                subtree * pow2(layers) + pos,
            ));
        }
    }
    if 0 < level < layers && pos < pow2((layers - level) as nat) {
        let w = pow2((layers - level) as nat);
        let below = (level - 1) as nat;
        lemma_pow2_unfold((layers - below) as nat);
        assert((layers - below) as nat == (layers - level + 1) as nat);
        let i = subtree * w + pos;
        assert(subtree * (2 * w) == 2 * (subtree * w)) by (nonlinear_arith);
        assert(tree.digests@[merkle_layout::digest_position(layers, subtree, level, pos)]
            == merkle_layout::node::<F, H>(tree.leaves@, ls, level, i));
        assert(tree.digests@[merkle_layout::digest_position(layers, subtree, below, 2 * pos)]
            == merkle_layout::node::<F, H>(tree.leaves@, ls, below, 2 * i));
        assert(tree.digests@[merkle_layout::digest_position(layers, subtree, below, 2 * pos + 1)]
            == merkle_layout::node::<F, H>(tree.leaves@, ls, below, 2 * i + 1));
    }
}

/// The number of layers follows from the number of leaves and of subtrees.
pub proof fn lemma_layers_from_counts<F: RichField, H: Hasher<F>>(
    tree: MerkleTreeGpu<F, H>,
    layers: nat,
)
    requires
        bits::is_power_of_two(tree.cap.0@.len()),
        tree.count() == tree.cap.0@.len() * pow2(layers),
    ensures
        tree.layers() == layers,
{
    let c = bits::log2(tree.cap.0@.len());
    lemma_pow2_adds(c, layers);
    bits::lemma_log2_pow2(c + layers);
}

/// The number of leaves is that of the whole runs of `leaf_size` elements.
pub proof fn lemma_count_meaning<F: RichField, H: Hasher<F>>(tree: MerkleTreeGpu<F, H>)
    requires
        tree.leaf_size > 0,
    ensures
        tree.count() * tree.leaf_size <= tree.leaves@.len() < (tree.count() + 1) * tree.leaf_size,
{
    let n = tree.leaf_size as int;
    let q = tree.count() as int;
    lemma_fundamental_div_mod(tree.leaves@.len() as int, n);
    lemma_mod_bound(tree.leaves@.len() as int, n);
    lemma_mul_is_commutative(n, q);
    lemma_mul_is_distributive_add_other_way(n, q, 1);
}

/// A tree can be built over `2^k` leaves with a cap of height up to `k`, as far as its
/// digests can be counted.
pub proof fn lemma_can_build<F: RichField, H: Hasher<F>>(
    leaves: Seq<F>,
    leaf_size: usize,
    cap_height: usize,
    k: nat,
)
    requires
        leaf_size > 0,
        pow2(k) * leaf_size <= leaves.len() < (pow2(k) + 1) * leaf_size,
        cap_height <= k,
        2 * (pow2(k) - pow2(cap_height as nat)) <= usize::MAX,
    ensures
        MerkleTreeGpu::<F, H>::can_build(leaves, leaf_size, cap_height),
{
    let n = leaf_size as int;
    let q = pow2(k) as int;
    lemma_mul_is_distributive_add_other_way(n, q, 1);
    lemma_fundamental_div_mod_converse(leaves.len() as int, n, q, leaves.len() - q * n);
    bits::lemma_log2_pow2(k);
}

/// Sibling `level` of the proof of a leaf is the root of the run of `2^level` leaves next to
/// the one that holds the leaf, under the same parent.
pub proof fn lemma_siblings_are_roots<F: RichField, H: Hasher<F>>(
    tree: MerkleTreeGpu<F, H>,
    leaves_2d: Seq<Vec<F>>,
    leaf_index: nat,
    level: nat,
    next: nat,
)
    requires
        tree.wf(),
        forall|i: int|
            0 <= i < leaves_2d.len() ==> (#[trigger] leaves_2d[i])@.len() == tree.leaf_size,
        tree.leaves@ == rows::flattened(rows::views(leaves_2d)),
        leaf_index < leaves_2d.len(),
        level < tree.layers(),
        next / 2 == leaf_index / pow2(level + 1),
        next != leaf_index / pow2(level),
    ensures
        merkle_layout::stored_siblings(tree.digests@, tree.layers() as nat, leaf_index).len()
            == tree.layers(),
        merkle_layout::stored_siblings(
            tree.digests@,
            tree.layers() as nat,
            leaf_index,
        )[level as int] == merkle_layout::root_by_halves::<F, H>(
            rows::views(leaves_2d).subrange(
                (next * pow2(level)) as int,
                ((next + 1) * pow2(level)) as int,
            ),
        ),
{
    let layers = tree.layers() as nat;
    let subtrees = tree.cap.0@.len();
    let n = tree.leaf_size as nat;
    let leaves = rows::views(leaves_2d);
    let here = leaf_index / pow2(level);
    lemma_leaves_of_rows(tree, leaves_2d);
    bits::lemma_pow2_split(bits::log2(tree.count()), layers);
    lemma_pow2_pos(level);
    lemma_pow2_unfold(level + 1);
    lemma_mul_is_commutative(2, pow2(level) as int);
    lemma_div_denominator(leaf_index as int, pow2(level) as int, 2);
    lemma_div_pos_is_pos(leaf_index as int, pow2(level) as int);
    assert(next == merkle_layout::sibling(here));
    lemma_mul_is_commutative(subtrees as int, pow2(layers) as int);
    merkle_layout::lemma_stored_sibling::<F, H>(
        tree.digests@,
        tree.leaves@,
        n,
        layers,
        subtrees,
        leaf_index,
        level,
    );
    assert forall|k: int| 0 <= k < leaves.len() implies #[trigger] merkle_layout::leaf_at(
        tree.leaves@,
        n,
        k as nat,
    ) == leaves[k] by {
        assert(leaves[k] == leaves_2d[k]@);
    }
    // The parent's run of leaves lies within the tree.
    merkle_layout::lemma_path_index(layers, leaf_index, level);
    let w = pow2((layers - level) as nat);
    let t = leaf_index / pow2(layers);
    lemma_pow2_pos(layers);
    lemma_multiply_divide_lt(leaf_index as int, pow2(layers) as int, subtrees as int);
    lemma_mul_inequality((t + 1) as int, subtrees as int, w as int);
    lemma_mul_is_distributive_add_other_way(w as int, t as int, 1);
    bits::lemma_pow2_split(layers, level);
    lemma_mul_inequality((next + 1) as int, (subtrees * w) as int, pow2(level) as int);
    lemma_mul_is_associative(subtrees as int, w as int, pow2(level) as int);
    merkle_layout::lemma_node_is_root::<F, H>(tree.leaves@, n, leaves, level, next);
}

/// `new` and `from_2d` build the tree whose cap of height `cap_height` is that of the
/// standard tree over the leaves.
pub proof fn lemma_built_cap<F: RichField, H: Hasher<F>>(
    tree: MerkleTreeGpu<F, H>,
    leaves_2d: Seq<Vec<F>>,
    leaf_size: usize,
    cap_height: usize,
)
    requires
        forall|i: int| 0 <= i < leaves_2d.len() ==> (#[trigger] leaves_2d[i])@.len() == leaf_size,
        tree.is_built(rows::flattened(rows::views(leaves_2d)), leaf_size, cap_height),
    ensures
        tree.leaves@ == rows::flattened(rows::views(leaves_2d)),
        tree.leaf_size == leaf_size,
        tree.count() == leaves_2d.len(),
        tree.digests@.len() == 2 * (leaves_2d.len() - pow2(cap_height as nat)),
        tree.cap.0@ == merkle_layout::standard_cap::<F, H>(
            rows::views(leaves_2d),
            cap_height as nat,
        ),
{
    bits::lemma_log2_pow2(cap_height as nat);
    lemma_leaves_of_rows(tree, leaves_2d);
    lemma_forest_size(tree.count(), cap_height as nat);
    lemma_cap_is_standard(tree, leaves_2d);
}

} // verus!
