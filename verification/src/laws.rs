//! What holds of every tree: the laws that follow from how it is built.

use crate::hash::{
    is_fingerprint, lemma_fingerprint_shape, pair_fingerprint, sha256_digest, text_fingerprint,
};
use crate::hashable::{
    hashes_as_function, is_hash_of, lemma_hash_of_text, lemma_texts_hash_as_function, Hashable,
};
use crate::hex::lemma_hex_lower_injective;
use crate::tree::{is_reduction_step, is_tree_over, next_layer, right_partner, MerkleTree};
use vstd::arithmetic::power2::{
    lemma2_to64, lemma_pow2_strictly_increases, lemma_pow2_unfold, pow2,
};
use vstd::prelude::*;
use vstd::utf8::{encode_utf8, encode_utf8_decode_utf8};

verus! {

/// Above the bottom layer of a tree with more than one layer stands the tree
/// over the second layer.
pub proof fn lemma_tree_above(layers: Seq<Seq<Seq<char>>>, leaves: Seq<Seq<char>>)
    requires
        is_tree_over(layers, leaves),
        layers.len() > 1,
    ensures
        leaves.len() > 1,
        is_tree_over(layers.skip(1), next_layer(leaves)),
{
    let above = layers.skip(1);
    assert(is_reduction_step(layers, 0));
    assert(above.last() == layers.last());
    assert forall|i: int| 0 <= i < above.len() - 1 implies #[trigger] is_reduction_step(
        above,
        i,
    ) by {
        assert(is_reduction_step(layers, i + 1));
    }
}

/// The leaves decide the whole tree: two trees over the same leaves have the
/// same layers.
pub proof fn lemma_tree_unique(
    first: Seq<Seq<Seq<char>>>,
    second: Seq<Seq<Seq<char>>>,
    leaves: Seq<Seq<char>>,
)
    requires
        is_tree_over(first, leaves),
        is_tree_over(second, leaves),
    ensures
        first == second,
    decreases first.len(),
{
    if first.len() == 1 {
        if second.len() > 1 {
            assert(is_reduction_step(second, 0));
        }
        assert(first =~= second);
    } else {
        lemma_tree_above(first, leaves);
        if second.len() == 1 {
            assert(second.last() == second[0]);
        }
        lemma_tree_above(second, leaves);
        lemma_tree_unique(first.skip(1), second.skip(1), next_layer(leaves));
        assert forall|i: int| 0 <= i < first.len() implies first[i] == second[i] by {
            if i > 0 {
                assert(first[i] == first.skip(1)[i - 1]);
                assert(second[i] == second.skip(1)[i - 1]);
            }
        }
        assert(first =~= second);
    }
}

/// Determinism: where `to_hash` is a function on `T`, as it is meant to be,
/// two trees built from the same items, in the same order, have the same
/// layers and the same root.
pub proof fn lemma_construction_deterministic<T: Hashable>(
    first: MerkleTree<T>,
    second: MerkleTree<T>,
    items: Seq<T>,
)
    requires
        hashes_as_function::<T>(),
        first.is_built_from(items),
        second.is_built_from(items),
    ensures
        first@ == second@,
        first.spec_root() == second.spec_root(),
{
    assert forall|i: int| 0 <= i < items.len() implies first@[0][i] == second@[0][i] by {
        assert(is_hash_of(items[i], first@[0][i]));
        assert(is_hash_of(items[i], second@[0][i]));
    }
    assert(first@[0] =~= second@[0]);
    lemma_tree_unique(first@, second@, first@[0]);
}

/// Determinism for texts: two trees built from the same texts, in the same
/// order, have the same layers and the same root.
pub proof fn lemma_text_construction_deterministic(
    first: MerkleTree<String>,
    second: MerkleTree<String>,
    items: Seq<String>,
)
    requires
        first.is_built_from(items),
        second.is_built_from(items),
    ensures
        first@ == second@,
        first.spec_root() == second.spec_root(),
{
    lemma_texts_hash_as_function();
    lemma_construction_deterministic(first, second, items);
}

/// Leaf fidelity: the bottom layer of a tree of `items` has one entry for
/// each item, a hash of that item, in the order of the items.
pub proof fn lemma_leaf_fidelity<T: Hashable>(tree: MerkleTree<T>, items: Seq<T>, i: int)
    requires
        tree.is_built_from(items),
        0 <= i < items.len(),
    ensures
        tree@[0].len() == items.len(),
        is_hash_of(items[i], tree@[0][i]),
{
}

/// Leaf fidelity for texts: the bottom layer of a tree of texts holds the
/// fingerprint of the UTF-8 bytes of each, in the order of the texts.
pub proof fn lemma_text_leaf_fidelity(tree: MerkleTree<String>, items: Seq<String>, i: int)
    requires
        tree.is_built_from(items),
        0 <= i < items.len(),
    ensures
        tree@[0].len() == items.len(),
        tree@[0][i] == text_fingerprint(items[i]@),
{
    lemma_hash_of_text(items[i], tree@[0][i]);
}

/// A tree has at least one layer, and each layer but the last has more than
/// one element and is followed by a layer of half its length, rounded up.
pub proof fn lemma_layer_lengths(layers: Seq<Seq<Seq<char>>>, leaves: Seq<Seq<char>>, i: int)
    requires
        is_tree_over(layers, leaves),
        0 <= i < layers.len() - 1,
    ensures
        layers[i].len() > 1,
        layers[i + 1].len() == (layers[i].len() + 1) / 2,
{
    assert(is_reduction_step(layers, i));
}

/// `k` is the logarithm of `n` to the base 2, rounded up: the least `k` with
/// `n <= 2^k`.
pub open spec fn is_ceil_log2(n: nat, k: nat) -> bool {
    &&& n <= pow2(k)
    &&& k > 0 ==> pow2((k - 1) as nat) < n
}

/// The rounded-up logarithm is unique.
pub proof fn lemma_ceil_log2_unique(n: nat, k: nat, other: nat)
    requires
        is_ceil_log2(n, k),
        is_ceil_log2(n, other),
    ensures
        k == other,
{
    if k < other {
        if k < other - 1 {
            lemma_pow2_strictly_increases(k, (other - 1) as nat);
        }
    } else if other < k {
        if other < k - 1 {
            lemma_pow2_strictly_increases(other, (k - 1) as nat);
        }
    }
}

/// The number of layers: a tree over `n` leaves has one layer more than the
/// logarithm of `n` to the base 2, rounded up; over one leaf it has one layer.
pub proof fn lemma_layer_count(layers: Seq<Seq<Seq<char>>>, leaves: Seq<Seq<char>>)
    requires
        is_tree_over(layers, leaves),
    ensures
        leaves.len() >= 1,
        is_ceil_log2(leaves.len(), (layers.len() - 1) as nat),
        leaves.len() == 1 <==> layers.len() == 1,
    decreases layers.len(),
{
    lemma2_to64();
    if layers.len() == 1 {
    } else {
        lemma_tree_above(layers, leaves);
        lemma_layer_count(layers.skip(1), next_layer(leaves));
        let k = (layers.len() - 1) as nat;
        lemma_pow2_unfold(k);
        if k > 1 {
            lemma_pow2_unfold((k - 1) as nat);
        }
    }
}

/// The number of layers of a tree of `items`, by the number of the items.
pub proof fn lemma_depth_law<T: Hashable>(tree: MerkleTree<T>, items: Seq<T>)
    requires
        tree.is_built_from(items),
    ensures
        items.len() >= 1,
        is_ceil_log2(items.len(), (tree@.len() - 1) as nat),
        items.len() == 1 <==> tree@.len() == 1,
{
    lemma_layer_count(tree@, tree@[0]);
}

/// Odd-node duplication: where a layer below the top has an odd number of
/// elements, the last element of the layer above is the fingerprint of the
/// last element paired with itself.
pub proof fn lemma_odd_node_duplicated(
    layers: Seq<Seq<Seq<char>>>,
    leaves: Seq<Seq<char>>,
    i: int,
)
    requires
        is_tree_over(layers, leaves),
        0 <= i < layers.len() - 1,
        layers[i].len() % 2 == 1,
    ensures
        layers[i + 1].last() == pair_fingerprint(layers[i].last(), layers[i].last()),
{
    assert(is_reduction_step(layers, i));
}

/// Every element above the bottom layer has the shape of a fingerprint.
pub proof fn lemma_upper_layers_are_fingerprints(
    layers: Seq<Seq<Seq<char>>>,
    leaves: Seq<Seq<char>>,
    i: int,
    j: int,
)
    requires
        is_tree_over(layers, leaves),
        0 < i < layers.len(),
        0 <= j < layers[i].len(),
    ensures
        is_fingerprint(layers[i][j]),
{
    assert(is_reduction_step(layers, i - 1));
    let below = layers[i - 1];
    lemma_fingerprint_shape(encode_utf8(below[2 * j] + right_partner(below, j)));
}

/// At position `k` of layer `i + 1` the two trees hold the same fingerprint,
/// though the pairs below it, from which it was computed, differ.
pub open spec fn is_pair_collision(
    first: Seq<Seq<Seq<char>>>,
    second: Seq<Seq<Seq<char>>>,
    i: int,
    k: int,
) -> bool {
    &&& 0 <= i < first.len() - 1
    &&& first.len() == second.len()
    &&& first[i].len() == second[i].len()
    &&& 0 <= k < first[i + 1].len()
    &&& first[i + 1][k] == second[i + 1][k]
    &&& first[i + 1][k] == pair_fingerprint(first[i][2 * k], right_partner(first[i], k))
    &&& second[i + 1][k] == pair_fingerprint(second[i][2 * k], right_partner(second[i], k))
    &&& (first[i][2 * k] != second[i][2 * k] || right_partner(first[i], k) != right_partner(
        second[i],
        k,
    ))
}

/// Two trees over equally many leaves have the same number of layers, and
/// layer by layer the same lengths.
pub proof fn lemma_same_shape(
    first: Seq<Seq<Seq<char>>>,
    first_leaves: Seq<Seq<char>>,
    second: Seq<Seq<Seq<char>>>,
    second_leaves: Seq<Seq<char>>,
)
    requires
        is_tree_over(first, first_leaves),
        is_tree_over(second, second_leaves),
        first_leaves.len() == second_leaves.len(),
    ensures
        first.len() == second.len(),
        forall|i: int| 0 <= i < first.len() ==> (#[trigger] first[i]).len() == second[i].len(),
    decreases first.len(),
{
    if first.len() == 1 {
        if second.len() > 1 {
            assert(is_reduction_step(second, 0));
        }
    } else {
        lemma_tree_above(first, first_leaves);
        if second.len() == 1 {
            assert(second.last() == second[0]);
        }
        lemma_tree_above(second, second_leaves);
        lemma_same_shape(
            first.skip(1),
            next_layer(first_leaves),
            second.skip(1),
            next_layer(second_leaves),
        );
        assert forall|i: int| 0 <= i < first.len() implies (#[trigger] first[i]).len()
            == second[i].len() by {
            if i > 0 {
                assert(first[i] == first.skip(1)[i - 1]);
                assert(second[i] == second.skip(1)[i - 1]);
            }
        }
    }
}

/// Below a layer on which two trees of the same shape agree, either they
/// agree on the bottom layer too, or somewhere two different pairs have the
/// same fingerprint.
proof fn lemma_descend(
    first: Seq<Seq<Seq<char>>>,
    first_leaves: Seq<Seq<char>>,
    second: Seq<Seq<Seq<char>>>,
    second_leaves: Seq<Seq<char>>,
    top: int,
) -> (at: (int, int))
    requires
        is_tree_over(first, first_leaves),
        is_tree_over(second, second_leaves),
        first_leaves.len() == second_leaves.len(),
        first_leaves != second_leaves,
        0 <= top < first.len(),
        top < second.len(),
        first[top] == second[top],
    ensures
        is_pair_collision(first, second, at.0, at.1),
    decreases top,
{
    lemma_same_shape(first, first_leaves, second, second_leaves);
    let below = top - 1;
    assert(top > 0);
    assert(is_reduction_step(first, below));
    assert(is_reduction_step(second, below));
    let a = first[below];
    let b = second[below];
    assert(a.len() == b.len());
    if a == b {
        lemma_descend(first, first_leaves, second, second_leaves, below)
    } else {
        if forall|j: int| 0 <= j < a.len() ==> a[j] == b[j] {
            assert(a =~= b);
        }
        let j = choose|j: int| 0 <= j < a.len() && a[j] != b[j];
        let k = j / 2;
        assert(j == 2 * k || j == 2 * k + 1);
        assert(first[top][k] == second[top][k]);
        (below, k)
    }
}

/// The root commits to the leaves and to their order: where two trees over
/// equally many leaves have the same root though their leaves differ,
/// somewhere in them two different pairs have the same fingerprint.
pub proof fn lemma_root_commits_to_leaves(
    first: Seq<Seq<Seq<char>>>,
    first_leaves: Seq<Seq<char>>,
    second: Seq<Seq<Seq<char>>>,
    second_leaves: Seq<Seq<char>>,
) -> (at: (int, int))
    requires
        is_tree_over(first, first_leaves),
        is_tree_over(second, second_leaves),
        first_leaves.len() == second_leaves.len(),
        first_leaves != second_leaves,
        first.last()[0] == second.last()[0],
    ensures
        is_pair_collision(first, second, at.0, at.1),
{
    lemma_same_shape(first, first_leaves, second, second_leaves);
    assert(first.last() =~= second.last());
    lemma_descend(first, first_leaves, second, second_leaves, first.len() - 1)
}

/// `items` with the items at `i` and `j` exchanged.
pub open spec fn swapped<T>(items: Seq<T>, i: int, j: int) -> Seq<T> {
    items.update(i, items[j]).update(j, items[i])
}

/// Order sensitivity: where the leaves of one tree are those of another with
/// two different leaves exchanged, the root differs too, unless somewhere in
/// the two trees two different pairs have the same fingerprint.
pub proof fn lemma_swap_changes_root<T: Hashable>(
    first: MerkleTree<T>,
    second: MerkleTree<T>,
    i: int,
    j: int,
) -> (at: (int, int))
    requires
        first.wf(),
        second.wf(),
        0 <= i < first@[0].len(),
        0 <= j < first@[0].len(),
        first@[0][i] != first@[0][j],
        second@[0] == swapped(first@[0], i, j),
        first.spec_root() == second.spec_root(),
    ensures
        is_pair_collision(first@, second@, at.0, at.1),
{
    assert(second@[0][i] == first@[0][j]);
    lemma_root_commits_to_leaves(first@, first@[0], second@, second@[0])
}

/// Order sensitivity for texts: where two texts with different fingerprints
/// are exchanged in the input, the root of the tree changes, unless two
/// different byte strings that were hashed for the two trees have the same
/// SHA-256 digest.
pub proof fn lemma_text_swap_changes_root(
    first: MerkleTree<String>,
    second: MerkleTree<String>,
    items: Seq<String>,
    i: int,
    j: int,
) -> (at: (int, int))
    requires
        0 <= i < items.len(),
        0 <= j < items.len(),
        text_fingerprint(items[i]@) != text_fingerprint(items[j]@),
        first.is_built_from(items),
        second.is_built_from(swapped(items, i, j)),
        first.spec_root() == second.spec_root(),
    ensures
        is_pair_collision(first@, second@, at.0, at.1),
        is_digest_collision(hashed_bytes(first@, at.0, at.1), hashed_bytes(second@, at.0, at.1)),
{
    let after = swapped(items, i, j);
    assert forall|k: int| 0 <= k < items.len() implies (#[trigger] first@[0][k]).len() == 64 by {
        lemma_hash_of_text(items[k], first@[0][k]);
        lemma_fingerprint_shape(encode_utf8(items[k]@));
    }
    assert forall|k: int| 0 <= k < items.len() implies (#[trigger] second@[0][k]).len() == 64 by {
        lemma_hash_of_text(after[k], second@[0][k]);
        lemma_fingerprint_shape(encode_utf8(after[k]@));
    }
    lemma_hash_of_text(items[i], first@[0][i]);
    lemma_hash_of_text(after[i], second@[0][i]);
    assert(first@[0][i] != second@[0][i]);
    lemma_root_commits_up_to_digest(first@, first@[0], second@, second@[0], 64)
}

/// Two different byte strings with the same SHA-256 digest.
pub open spec fn is_digest_collision(first: Seq<u8>, second: Seq<u8>) -> bool {
    first != second && sha256_digest(first) == sha256_digest(second)
}

/// Two different pairs with the same fingerprint, whose left halves are of
/// one length, give two different byte strings with the same digest.
pub proof fn lemma_pair_collision_is_digest_collision(
    left: Seq<char>,
    right: Seq<char>,
    other_left: Seq<char>,
    other_right: Seq<char>,
)
    requires
        left.len() == other_left.len(),
        left != other_left || right != other_right,
        pair_fingerprint(left, right) == pair_fingerprint(other_left, other_right),
    ensures
        is_digest_collision(encode_utf8(left + right), encode_utf8(other_left + other_right)),
{
    let joined = left + right;
    let other_joined = other_left + other_right;
    if joined == other_joined {
        assert(joined.subrange(0, left.len() as int) =~= left);
        assert(other_joined.subrange(0, left.len() as int) =~= other_left);
        assert(joined.subrange(left.len() as int, joined.len() as int) =~= right);
        assert(other_joined.subrange(left.len() as int, joined.len() as int) =~= other_right);
    }
    encode_utf8_decode_utf8(joined);
    encode_utf8_decode_utf8(other_joined);
    let digest = sha256_digest(encode_utf8(joined));
    let other_digest = sha256_digest(encode_utf8(other_joined));
    lemma_hex_lower_injective(digest@, other_digest@);
    assert(digest =~= other_digest);
}

/// The bytes that were hashed for position `k` of the layer above layer `i`.
pub open spec fn hashed_bytes(layers: Seq<Seq<Seq<char>>>, i: int, k: int) -> Seq<u8> {
    encode_utf8(layers[i][2 * k] + right_partner(layers[i], k))
}

/// Where all leaf fingerprints are of one length, as those of texts are, the
/// root commits to the leaves up to SHA-256 itself: two trees over equally
/// many leaves, with the same root and different leaves, hashed two
/// different byte strings to the same digest.
pub proof fn lemma_root_commits_up_to_digest(
    first: Seq<Seq<Seq<char>>>,
    first_leaves: Seq<Seq<char>>,
    second: Seq<Seq<Seq<char>>>,
    second_leaves: Seq<Seq<char>>,
    width: nat,
) -> (at: (int, int))
    requires
        is_tree_over(first, first_leaves),
        is_tree_over(second, second_leaves),
        first_leaves.len() == second_leaves.len(),
        first_leaves != second_leaves,
        first.last()[0] == second.last()[0],
        forall|j: int| 0 <= j < first_leaves.len() ==> (#[trigger] first_leaves[j]).len() == width,
        forall|j: int|
            0 <= j < second_leaves.len() ==> (#[trigger] second_leaves[j]).len() == width,
    ensures
        is_pair_collision(first, second, at.0, at.1),
        is_digest_collision(hashed_bytes(first, at.0, at.1), hashed_bytes(second, at.0, at.1)),
{
    let at = lemma_root_commits_to_leaves(first, first_leaves, second, second_leaves);
    let (i, k) = at;
    assert(is_reduction_step(first, i));
    assert(is_reduction_step(second, i));
    assert(2 * k < first[i].len());
    if i > 0 {
        lemma_upper_layers_are_fingerprints(first, first_leaves, i, 2 * k);
        lemma_upper_layers_are_fingerprints(second, second_leaves, i, 2 * k);
    }
    lemma_pair_collision_is_digest_collision(
        first[i][2 * k],
        right_partner(first[i], k),
        second[i][2 * k],
        right_partner(second[i], k),
    );
    at
}

} // verus!
