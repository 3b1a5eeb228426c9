//! Where the digests of a Merkle tree stand in the linear layout.
use vstd::prelude::*;
use vstd::arithmetic::div_mod::*;
use vstd::arithmetic::mul::*;
use vstd::arithmetic::power2::*;
use crate::bits;
use crate::hasher::Hasher;

verus! {

/// Leaf `i`: the `i`-th run of `leaf_size` elements of the flattened leaf data.
pub open spec fn leaf_at<F>(leaves: Seq<F>, leaf_size: nat, i: nat) -> Seq<F> {
    leaves.subrange((i * leaf_size) as int, ((i + 1) * leaf_size) as int)
}

/// The digest of node `i` at height `height`: a leaf digest at height zero, the
/// compression of its two children above.
pub open spec fn node<F, H: Hasher<F>>(
    leaves: Seq<F>,
    leaf_size: nat,
    height: nat,
    i: nat,
) -> H::Hash
    decreases height,
{
    if height == 0 {
        H::spec_hash_or_noop(leaf_at(leaves, leaf_size, i))
    } else {
        H::spec_two_to_one(
            node::<F, H>(leaves, leaf_size, (height - 1) as nat, 2 * i),
            node::<F, H>(leaves, leaf_size, (height - 1) as nat, 2 * i + 1),
        )
    }
}

/// Where the digests of height `level` start within a subtree of `layers` layers:
/// `2^(layers - level) - 2`. The level closest to the root comes first.
pub open spec fn level_start(layers: nat, level: nat) -> int {
    pow2((layers - level) as nat) - 2
}

/// Number of digests stored for one subtree of `layers` layers (its root is in the cap).
pub open spec fn subtree_digest_size(layers: nat) -> int {
    2 * pow2(layers) - 2
}

/// Position of digest `pos` of height `level` of subtree `subtree`.
pub open spec fn digest_position(layers: nat, subtree: nat, level: nat, pos: nat) -> int {
    subtree * subtree_digest_size(layers) + level_start(layers, level) + pos
}

/// The other child of the parent of node `i`.
pub open spec fn sibling(i: nat) -> nat {
    if i % 2 == 0 {
        i + 1
    } else {
        (i - 1) as nat
    }
}

/// `digests` holds the inner digests of the subtree over `leaves`, level by level:
/// digest `pos` of height `level` stands `pos` places after `level_start`.
pub open spec fn is_linear_subtree<F, H: Hasher<F>>(
    digests: Seq<H::Hash>,
    leaves: Seq<F>,
    leaf_size: nat,
    layers: nat,
) -> bool {
    &&& digests.len() == subtree_digest_size(layers)
    &&& forall|level: nat, pos: nat|
        level < layers && pos < pow2((layers - level) as nat) ==> digests[level_start(layers, level)
            + pos] == #[trigger] node::<F, H>(leaves, leaf_size, level, pos)
}

/// `digests` holds the inner digests of all `subtrees` subtrees, one after the other.
pub open spec fn is_linear_forest<F, H: Hasher<F>>(
    digests: Seq<H::Hash>,
    leaves: Seq<F>,
    leaf_size: nat,
    layers: nat,
    subtrees: nat,
) -> bool {
    &&& digests.len() == subtrees * subtree_digest_size(layers)
    &&& forall|subtree: nat, level: nat, pos: nat|
        subtree < subtrees && level < layers && pos < pow2((layers - level) as nat)
            ==> digests[#[trigger] digest_position(layers, subtree, level, pos)] == node::<F, H>(
            leaves,
            leaf_size,
            level,
            subtree * pow2((layers - level) as nat) + pos,
        )
}

/// `cap` holds the roots of the `subtrees` subtrees of `layers` layers.
pub open spec fn is_cap<F, H: Hasher<F>>(
    cap: Seq<H::Hash>,
    leaves: Seq<F>,
    leaf_size: nat,
    layers: nat,
    subtrees: nat,
) -> bool {
    &&& cap.len() == subtrees
    &&& forall|i: nat|
        i < subtrees ==> cap[i as int] == #[trigger] node::<F, H>(leaves, leaf_size, layers, i)
}

/// The root that a leaf digest and the siblings on its path lead to.
pub open spec fn path_root<F, H: Hasher<F>>(
    digest: H::Hash,
    index: nat,
    siblings: Seq<H::Hash>,
) -> H::Hash
    decreases siblings.len(),
{
    if siblings.len() == 0 {
        digest
    } else {
        let parent = if index % 2 == 1 {
            H::spec_two_to_one(siblings[0], digest)
        } else {
            H::spec_two_to_one(digest, siblings[0])
        };
        path_root::<F, H>(parent, index / 2, siblings.drop_first())
    }
}

/// Node `i` of a part of the leaves that starts at leaf `first` is the node that
/// many places further in the whole.
pub proof fn lemma_node_of_part<F, H: Hasher<F>>(
    leaves: Seq<F>,
    leaf_size: nat,
    first: nat,
    count: nat,
    height: nat,
    shift: nat,
    i: nat,
)
    requires
        (first + count) * leaf_size <= leaves.len(),
        first == shift * pow2(height),
        (i + 1) * pow2(height) <= count,
    ensures
        node::<F, H>(
            leaves.subrange((first * leaf_size) as int, ((first + count) * leaf_size) as int),
            leaf_size,
            height,
            i,
        ) == node::<F, H>(leaves, leaf_size, height, shift + i),
    decreases height,
{
    let part = leaves.subrange((first * leaf_size) as int, ((first + count) * leaf_size) as int);
    lemma2_to64();
    assert((first + count) * leaf_size == first * leaf_size + count * leaf_size) by {
        lemma_mul_is_distributive_add_other_way(leaf_size as int, first as int, count as int);
    }
    if height == 0 {
        assert(first == shift) by (nonlinear_arith)
            requires
                first == shift * 1,
        ;
        assert(i + 1 <= count) by (nonlinear_arith)
            requires
                (i + 1) * 1 <= count,
        ;
        assert((i + 1) * leaf_size == i * leaf_size + leaf_size) by {
            lemma_mul_is_distributive_add_other_way(leaf_size as int, i as int, 1);
        }
        assert((i + 1) * leaf_size <= count * leaf_size) by {
            lemma_mul_inequality((i + 1) as int, count as int, leaf_size as int);
        }
        assert((first + i) * leaf_size == first * leaf_size + i * leaf_size) by {
            lemma_mul_is_distributive_add_other_way(leaf_size as int, first as int, i as int);
        }
        assert((first + i + 1) * leaf_size == (first + i) * leaf_size + leaf_size) by {
            lemma_mul_is_distributive_add_other_way(leaf_size as int, (first + i) as int, 1);
        }
        assert(i * leaf_size >= 0) by {
            lemma_mul_nonnegative(i as int, leaf_size as int);
        }
        assert(first * leaf_size >= 0) by {
            lemma_mul_nonnegative(first as int, leaf_size as int);
        }
        assert(leaf_at(part, leaf_size, i) =~= leaf_at(leaves, leaf_size, first + i));
    } else {
        let h = (height - 1) as nat;
        lemma_pow2_unfold(height);
        let w = pow2(h) as int;
        assert(shift * pow2(height) == (2 * shift) * w) by (nonlinear_arith)
            requires
                pow2(height) == 2 * w,
        ;
        assert((i + 1) * pow2(height) == (2 * i + 2) * w) by (nonlinear_arith)
            requires
                pow2(height) == 2 * w,
        ;
        assert((2 * i + 1) * w <= (2 * i + 2) * w) by (nonlinear_arith)
            requires
                w >= 0,
        ;
        lemma_node_of_part::<F, H>(leaves, leaf_size, first, count, h, 2 * shift, 2 * i);
        lemma_node_of_part::<F, H>(leaves, leaf_size, first, count, h, 2 * shift, 2 * i + 1);
        assert(2 * shift + 2 * i == 2 * (shift + i));
    }
}

/// Digest positions of a subtree fall into that subtree's part of the buffer.
pub proof fn lemma_digest_position_bound(layers: nat, subtree: nat, level: nat, pos: nat)
    requires
        level < layers,
        pos < pow2((layers - level) as nat),
    ensures
        0 <= level_start(layers, level) + pos < subtree_digest_size(layers),
        subtree * subtree_digest_size(layers) <= digest_position(layers, subtree, level, pos),
        digest_position(layers, subtree, level, pos) < (subtree + 1) * subtree_digest_size(layers),
        subtree * subtree_digest_size(layers) >= 0,
{
    lemma2_to64();
    bits::lemma_pow2_monotone(1, (layers - level) as nat);
    bits::lemma_pow2_monotone((layers - level) as nat, layers);
    let size = subtree_digest_size(layers);
    lemma_mul_is_distributive_add_other_way(size, subtree as int, 1);
    lemma_mul_nonnegative(subtree as int, size);
}

/// Adding the digests of the next subtree extends the forest by that subtree.
pub proof fn lemma_forest_extend<F, H: Hasher<F>>(
    digests: Seq<H::Hash>,
    part_digests: Seq<H::Hash>,
    leaves: Seq<F>,
    leaf_size: nat,
    layers: nat,
    subtrees: nat,
)
    requires
        is_linear_forest::<F, H>(digests, leaves, leaf_size, layers, subtrees),
        (subtrees * pow2(layers) + pow2(layers)) * leaf_size <= leaves.len(),
        is_linear_subtree::<F, H>(
            part_digests,
            leaves.subrange(
                ((subtrees * pow2(layers)) * leaf_size) as int,
                ((subtrees * pow2(layers) + pow2(layers)) * leaf_size) as int,
            ),
            leaf_size,
            layers,
        ),
    ensures
        is_linear_forest::<F, H>(
            digests + part_digests,
            leaves,
            leaf_size,
            layers,
            (subtrees + 1) as nat,
        ),
{
    let size = subtree_digest_size(layers);
    let whole = digests + part_digests;
    let first = subtrees * pow2(layers);
    let part = leaves.subrange(
        (first * leaf_size) as int,
        ((first + pow2(layers)) * leaf_size) as int,
    );
    lemma_mul_is_distributive_add_other_way(size, subtrees as int, 1);
    assert forall|subtree: nat, level: nat, pos: nat|
        subtree < subtrees + 1 && level < layers && pos < pow2(
            (layers - level) as nat,
        ) implies whole[#[trigger] digest_position(layers, subtree, level, pos)] == node::<F, H>(
        leaves,
        leaf_size,
        level,
        subtree * pow2((layers - level) as nat) + pos,
    ) by {
        lemma_digest_position_bound(layers, subtree, level, pos);
        if subtree < subtrees {
            lemma_mul_inequality((subtree + 1) as int, subtrees as int, size);
            assert(whole[digest_position(layers, subtree, level, pos)] == digests[digest_position(
                layers,
                subtree,
                level,
                pos,
            )]);
        } else {
            let w = pow2((layers - level) as nat);
            bits::lemma_pow2_split(layers, level);
            lemma_mul_is_associative(subtrees as int, w as int, pow2(level) as int);
            lemma_mul_inequality((pos + 1) as int, w as int, pow2(level) as int);
            lemma_node_of_part::<F, H>(
                leaves,
                leaf_size,
                first,
                pow2(layers),
                level,
                subtrees * w,
                pos,
            );
            assert(part_digests[level_start(layers, level) + pos] == node::<F, H>(
                part,
                leaf_size,
                level,
                pos,
            ));
        }
    }
}

/// Position of the sibling of the path of leaf `leaf_index` at height `level`.
pub open spec fn sibling_position(layers: nat, leaf_index: nat, level: nat) -> int {
    digest_position(
        layers,
        leaf_index / pow2(layers),
        level,
        sibling((leaf_index % pow2(layers)) / pow2(level)),
    )
}

/// The place of a node on the path, within its level and within its subtree's level.
pub proof fn lemma_path_index(layers: nat, leaf_index: nat, level: nat)
    requires
        level < layers,
    ensures
        ({
            let w = pow2((layers - level) as nat);
            let within = (leaf_index % pow2(layers)) / pow2(level);
            &&& within < w
            &&& sibling(within) < w
            &&& leaf_index / pow2(level) == (leaf_index / pow2(layers)) * w + within
            &&& sibling(leaf_index / pow2(level)) == (leaf_index / pow2(layers)) * w + sibling(
                within,
            )
        }),
{
    let big = pow2(layers) as int;
    let small = pow2(level) as int;
    let w = pow2((layers - level) as nat) as int;
    let q = leaf_index as int / big;
    let r = leaf_index as int % big;
    let within = r / small;
    lemma_pow2_pos(layers);
    lemma_pow2_pos(level);
    bits::lemma_pow2_split(layers, level);
    lemma_fundamental_div_mod(leaf_index as int, big);
    lemma_fundamental_div_mod(r, small);
    lemma_mod_bound(r, small);
    // The path node sits `within` places into the level of its subtree.
    assert(within < w) by {
        lemma_multiply_divide_lt(r, small, w);
        lemma_mul_is_commutative(w, small);
    }
    assert(leaf_index as int == (q * w + within) * small + r % small) by (nonlinear_arith)
        requires
            leaf_index as int == big * q + r,
            big == w * small,
            r == small * within + r % small,
    ;
    lemma_fundamental_div_mod_converse(leaf_index as int, small, q * w + within, r % small);
    // The width of the level is even, so siblings stay inside the subtree.
    lemma_pow2_unfold((layers - level) as nat);
    let half = pow2((layers - level - 1) as nat) as int;
    assert(q * w == 2 * (q * half)) by (nonlinear_arith)
        requires
            w == 2 * half,
    ;
    lemma_div_pos_is_pos(r, small);
    lemma_div_pos_is_pos(leaf_index as int, big);
    lemma_mul_nonnegative(q, half);
}

/// The siblings stored for leaf `leaf_index`, bottom-up.
pub open spec fn stored_siblings<T>(digests: Seq<T>, layers: nat, leaf_index: nat) -> Seq<T> {
    Seq::new(layers, |level: int| digests[sibling_position(layers, leaf_index, level as nat)])
}

/// In a well-built forest the sibling stored for a path is the other child of the
/// path's parent.
pub proof fn lemma_stored_sibling<F, H: Hasher<F>>(
    digests: Seq<H::Hash>,
    leaves: Seq<F>,
    leaf_size: nat,
    layers: nat,
    subtrees: nat,
    leaf_index: nat,
    level: nat,
)
    requires
        is_linear_forest::<F, H>(digests, leaves, leaf_size, layers, subtrees),
        leaf_index < subtrees * pow2(layers),
        level < layers,
    ensures
        0 <= sibling_position(layers, leaf_index, level) < digests.len(),
        digests[sibling_position(layers, leaf_index, level)] == node::<F, H>(
            leaves,
            leaf_size,
            level,
            sibling(leaf_index / pow2(level)),
        ),
{
    lemma_path_index(layers, leaf_index, level);
    lemma_pow2_pos(layers);
    let subtree = leaf_index / pow2(layers);
    assert(subtree < subtrees) by {
        lemma_mul_is_commutative(subtrees as int, pow2(layers) as int);
        lemma_multiply_divide_lt(leaf_index as int, pow2(layers) as int, subtrees as int);
    }
    let pos = sibling((leaf_index % pow2(layers)) / pow2(level));
    lemma_digest_position_bound(layers, subtree, level, pos);
    lemma_mul_inequality((subtree + 1) as int, subtrees as int, subtree_digest_size(layers));
}

/// Climbing from height `level` along the siblings reaches the node `layers` up.
proof fn lemma_climb<F, H: Hasher<F>>(
    leaves: Seq<F>,
    leaf_size: nat,
    layers: nat,
    leaf_index: nat,
    siblings: Seq<H::Hash>,
    level: nat,
)
    requires
        level <= layers,
        siblings.len() == layers,
        forall|k: nat|
            k < layers ==> #[trigger] siblings[k as int] == node::<F, H>(
                leaves,
                leaf_size,
                k,
                sibling(leaf_index / pow2(k)),
            ),
    ensures
        path_root::<F, H>(
            node::<F, H>(leaves, leaf_size, level, leaf_index / pow2(level)),
            leaf_index / pow2(level),
            siblings.skip(level as int),
        ) == node::<F, H>(leaves, leaf_size, layers, leaf_index / pow2(layers)),
    decreases layers - level,
{
    let rest = siblings.skip(level as int);
    let j = leaf_index / pow2(level);
    lemma_pow2_pos(level);
    if level < layers {
        lemma_pow2_unfold(level + 1);
        lemma_div_denominator(leaf_index as int, pow2(level) as int, 2);
        lemma_mul_is_commutative(pow2(level) as int, 2);
        assert(leaf_index / pow2(level + 1) == j / 2);
        assert(rest[0] == siblings[level as nat as int]);
        assert(rest.drop_first() =~= siblings.skip((level + 1) as int));
        if j % 2 == 1 {
            assert(2 * (j / 2) == sibling(j));
            assert(2 * (j / 2) + 1 == j);
        } else {
            assert(2 * (j / 2) == j);
            assert(2 * (j / 2) + 1 == sibling(j));
        }
        lemma_climb::<F, H>(leaves, leaf_size, layers, leaf_index, siblings, level + 1);
    }
}

/// In a well-built forest, every leaf's digest and its stored siblings lead to the
/// root of its subtree.
pub proof fn lemma_path_reaches_root<F, H: Hasher<F>>(
    digests: Seq<H::Hash>,
    leaves: Seq<F>,
    leaf_size: nat,
    layers: nat,
    subtrees: nat,
    leaf_index: nat,
)
    requires
        is_linear_forest::<F, H>(digests, leaves, leaf_size, layers, subtrees),
        leaf_index < subtrees * pow2(layers),
    ensures
        path_root::<F, H>(
            H::spec_hash_or_noop(leaf_at(leaves, leaf_size, leaf_index)),
            leaf_index,
            stored_siblings(digests, layers, leaf_index),
        ) == node::<F, H>(leaves, leaf_size, layers, leaf_index / pow2(layers)),
{
    let siblings = stored_siblings(digests, layers, leaf_index);
    assert forall|k: nat| k < layers implies #[trigger] siblings[k as int] == node::<F, H>(
        leaves,
        leaf_size,
        k,
        sibling(leaf_index / pow2(k)),
    ) by {
        lemma_stored_sibling::<F, H>(
            digests,
            leaves,
            leaf_size,
            layers,
            subtrees,
            leaf_index,
            k,
        );
    }
    lemma_climb::<F, H>(leaves, leaf_size, layers, leaf_index, siblings, 0);
    lemma2_to64();
    lemma_div_basics(leaf_index as int);
    assert(siblings.skip(0) =~= siblings);
}

/// Every place of a forest's buffer is the position of some digest.
pub proof fn lemma_position_covered(layers: nat, subtrees: nat, q: int)
    requires
        0 <= q < subtrees * subtree_digest_size(layers),
    ensures
        exists|subtree: nat, level: nat, pos: nat|
            subtree < subtrees && level < layers && pos < pow2((layers - level) as nat)
                && #[trigger] digest_position(layers, subtree, level, pos) == q,
{
    let size = subtree_digest_size(layers);
    lemma_pow2_pos(layers);
    assert(size > 0) by (nonlinear_arith)
        requires
            0 <= q < subtrees * size,
            subtrees >= 0,
            size >= 0,
    ;
    let subtree = q / size;
    let r = q % size;
    lemma_fundamental_div_mod(q, size);
    lemma_mod_bound(q, size);
    lemma_div_pos_is_pos(q, size);
    lemma_mul_is_commutative(subtrees as int, size);
    lemma_multiply_divide_lt(q, size, subtrees as int);
    lemma_mul_is_commutative(size, subtree);
    // r + 2 lies in one of the intervals from a power of two to the next.
    let k = bits::log2((r + 2) as nat);
    bits::lemma_log2_bounds((r + 2) as nat);
    assert(1 <= k) by {
        lemma2_to64();
        if k == 0 {
            assert(pow2(1) == 2);
        }
    }
    assert(k <= layers) by {
        if k > layers {
            bits::lemma_pow2_monotone(layers + 1, k);
            lemma_pow2_unfold(layers + 1);
        }
    }
    let level = (layers - k) as nat;
    let pos = (r + 2 - pow2(k)) as nat;
    lemma_pow2_unfold(k + 1);
    assert((layers - level) as nat == k);
    assert(digest_position(layers, subtree as nat, level, pos) == q);
}

/// The root of a tree over a two-power number of leaves: the leaf digest of a single leaf,
/// the compression of the roots of the two halves otherwise.
pub open spec fn root_by_halves<F, H: Hasher<F>>(leaves: Seq<Seq<F>>) -> H::Hash
    decreases leaves.len(),
{
    if leaves.len() <= 1 {
        H::spec_hash_or_noop(leaves[0])
    } else {
        let half = leaves.len() as int / 2;
        H::spec_two_to_one(
            root_by_halves::<F, H>(leaves.take(half)),
            root_by_halves::<F, H>(leaves.skip(half)),
        )
    }
}

/// The cap of height `cap_height` of the standard tree over the leaves: the root of each of
/// `2^cap_height` runs of equal length.
pub open spec fn standard_cap<F, H: Hasher<F>>(leaves: Seq<Seq<F>>, cap_height: nat) -> Seq<
    H::Hash,
> {
    let size = leaves.len() / pow2(cap_height);
    Seq::new(
        pow2(cap_height),
        |i: int| root_by_halves::<F, H>(leaves.subrange(i * size, (i + 1) * size)),
    )
}

/// Node `i` at height `height` is the root of the leaves below it.
pub proof fn lemma_node_is_root<F, H: Hasher<F>>(
    flat: Seq<F>,
    leaf_size: nat,
    leaves: Seq<Seq<F>>,
    height: nat,
    i: nat,
)
    requires
        forall|k: int|
            0 <= k < leaves.len() ==> #[trigger] leaf_at(flat, leaf_size, k as nat) == leaves[k],
        (i + 1) * pow2(height) <= leaves.len(),
    ensures
        node::<F, H>(flat, leaf_size, height, i) == root_by_halves::<F, H>(
            leaves.subrange((i * pow2(height)) as int, ((i + 1) * pow2(height)) as int),
        ),
    decreases height,
{
    let w = pow2(height) as int;
    let start = i * w;
    lemma_pow2_pos(height);
    lemma_mul_is_distributive_add_other_way(w, i as int, 1);
    lemma_mul_nonnegative(i as int, w);
    let part = leaves.subrange(start, (i + 1) * w);
    if height == 0 {
        lemma2_to64();
        lemma_mul_basics(i as int);
        assert((i + 1) * pow2(height) == i + 1) by (nonlinear_arith)
            requires
                pow2(height) == 1,
        ;
        let k = i as int;
        assert(k < leaves.len());
        assert(leaf_at(flat, leaf_size, k as nat) == leaves[k]);
        assert(part[0] == leaves[i as int]);
    } else {
        let h = (height - 1) as nat;
        let v = pow2(h) as int;
        lemma_pow2_unfold(height);
        lemma_pow2_pos(h);
        assert((2 * i) * v == start && (2 * i + 1) * v == start + v && (2 * i + 2) * v == start + w)
            by (nonlinear_arith)
            requires
                w == 2 * v,
                start == i * w,
        ;
        lemma_node_is_root::<F, H>(flat, leaf_size, leaves, h, 2 * i);
        lemma_node_is_root::<F, H>(flat, leaf_size, leaves, h, 2 * i + 1);
        assert(part.take(v) =~= leaves.subrange(start, start + v));
        assert(part.skip(v) =~= leaves.subrange(start + v, start + w));
    }
}

/// Element `j` of leaf `i` is element `i * leaf_size + j` of the leaf data.
pub proof fn lemma_leaf_elements<F>(leaves: Seq<F>, leaf_size: nat, i: nat)
    requires
        (i + 1) * leaf_size <= leaves.len(),
    ensures
        leaf_at(leaves, leaf_size, i).len() == leaf_size,
        forall|j: int|
            0 <= j < leaf_size ==> #[trigger] leaf_at(leaves, leaf_size, i)[j] == leaves[i
                * leaf_size + j],
{
    lemma_mul_is_distributive_add_other_way(leaf_size as int, i as int, 1);
    lemma_mul_nonnegative(i as int, leaf_size as int);
}

/// The root over two halves of equal length is the compression of their roots, and the root
/// over a single leaf is its hash.
pub proof fn lemma_root_of_halves<F, H: Hasher<F>>(left: Seq<Seq<F>>, right: Seq<Seq<F>>)
    requires
        left.len() == right.len(),
        left.len() > 0,
    ensures
        root_by_halves::<F, H>(left + right) == H::spec_two_to_one(
            root_by_halves::<F, H>(left),
            root_by_halves::<F, H>(right),
        ),
        left.len() == 1 ==> root_by_halves::<F, H>(left) == H::spec_hash_or_noop(left[0]),
{
    let both = left + right;
    assert(both.take(left.len() as int) =~= left);
    assert(both.skip(left.len() as int) =~= right);
}

/// Entry `i` of the standard cap is the root of run `i` of the leaves, cut into
/// `2^cap_height` runs of equal length.
pub proof fn lemma_standard_cap_entry<F, H: Hasher<F>>(
    leaves: Seq<Seq<F>>,
    cap_height: nat,
    size: nat,
    i: int,
)
    requires
        leaves.len() == pow2(cap_height) * size,
        0 <= i < pow2(cap_height),
    ensures
        standard_cap::<F, H>(leaves, cap_height).len() == pow2(cap_height),
        standard_cap::<F, H>(leaves, cap_height)[i] == root_by_halves::<F, H>(
            leaves.subrange(i * size, (i + 1) * size),
        ),
{
    lemma_pow2_pos(cap_height);
    lemma_mul_is_commutative(pow2(cap_height) as int, size as int);
    lemma_div_by_multiple(size as int, pow2(cap_height) as int);
}

/// Following a path: without siblings it ends at the digest; with one more sibling, the
/// digest goes to the right of it where the index is odd, to the left where it is even, and
/// the path goes on from the parent.
pub proof fn lemma_path_root_step<F, H: Hasher<F>>(
    digest: H::Hash,
    index: nat,
    sibling: H::Hash,
    rest: Seq<H::Hash>,
)
    ensures
        path_root::<F, H>(digest, index, Seq::empty()) == digest,
        path_root::<F, H>(digest, 2 * index, seq![sibling] + rest) == path_root::<F, H>(
            H::spec_two_to_one(digest, sibling),
            index,
            rest,
        ),
        path_root::<F, H>(digest, 2 * index + 1, seq![sibling] + rest) == path_root::<F, H>(
            H::spec_two_to_one(sibling, digest),
            index,
            rest,
        ),
{
    let siblings = seq![sibling] + rest;
    assert(siblings.drop_first() =~= rest);
    assert(siblings[0] == sibling);
}

/// Sibling `level` of a proof is read from its place in the linear layout: in the subtree of
/// the leaf, in the part of its level, next to the place of the path.
pub proof fn lemma_sibling_place<T>(
    digests: Seq<T>,
    layers: nat,
    leaf_index: nat,
    level: nat,
    next: nat,
)
    requires
        level < layers,
        next / 2 == (leaf_index % pow2(layers)) / pow2(level) / 2,
        next != (leaf_index % pow2(layers)) / pow2(level),
    ensures
        stored_siblings(digests, layers, leaf_index).len() == layers,
        stored_siblings(digests, layers, leaf_index)[level as int] == digests[(leaf_index / pow2(
            layers,
        )) * (pow2(layers + 1) - 2) + pow2((layers - level) as nat) - 2 + next],
{
    lemma_pow2_unfold(layers + 1);
    lemma_pow2_pos(layers);
    lemma_pow2_pos(level);
    lemma_mod_bound(leaf_index as int, pow2(layers) as int);
    lemma_div_pos_is_pos((leaf_index % pow2(layers)) as int, pow2(level) as int);
    let here = (leaf_index % pow2(layers)) / pow2(level);
    assert(next == sibling(here));
}

} // verus!
