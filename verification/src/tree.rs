//! The tree: its layers, how they are built, and what it exposes.

use crate::hash::{hash_pair, pair_fingerprint};
use crate::hashable::{is_hash_of, Hashable};
use crate::laws::{is_ceil_log2, lemma_layer_count};
use std::marker::PhantomData;
use vstd::prelude::*;

verus! {

/// The right-hand partner of the element at the even index `2 * k` of
/// `layer`: its successor, or, where the layer ends there, the element itself.
pub open spec fn right_partner(layer: Seq<Seq<char>>, k: int) -> Seq<char> {
    if 2 * k + 1 < layer.len() {
        layer[2 * k + 1]
    } else {
        layer[2 * k]
    }
}

/// The layer above `layer`: its elements are taken two by two from the left,
/// and each pair gives the fingerprint of its parent. A last element without
/// a partner is paired with itself.
pub open spec fn next_layer(layer: Seq<Seq<char>>) -> Seq<Seq<char>> {
    Seq::new(
        ((layer.len() + 1) / 2) as nat,
        |k: int| pair_fingerprint(layer[2 * k], right_partner(layer, k)),
    )
}

/// Layer `i` of `layers` has more than one element, and the layer after it is
/// the one above it.
pub open spec fn is_reduction_step(layers: Seq<Seq<Seq<char>>>, i: int) -> bool {
    &&& layers[i].len() > 1
    &&& layers[i + 1] == next_layer(layers[i])
}

/// `layers` is the tree over `leaves`: it starts with the leaves, every
/// further layer is the one above its predecessor, and it stops at the first
/// layer that has a single element, the root.
pub open spec fn is_tree_over(layers: Seq<Seq<Seq<char>>>, leaves: Seq<Seq<char>>) -> bool {
    &&& layers.len() >= 1
    &&& layers[0] == leaves
    &&& layers.last().len() == 1
    &&& forall|i: int| 0 <= i < layers.len() - 1 ==> #[trigger] is_reduction_step(layers, i)
}

/// The text of the error that building a tree from nothing returns.
pub open spec fn empty_input_message() -> Seq<char> {
    "Cannot create a Merkle Tree with no data."@
}

/// A Merkle tree over items of type `T`.
///
/// `layers[0]` holds the fingerprints of the items, the last layer holds the
/// root alone. The items themselves are not kept.
#[derive(Debug)]
pub struct MerkleTree<T: Hashable> {
    /// The layers, bottom first.
    pub layers: Vec<Vec<String>>,
    /// Ties the tree to the type of its items, of which it keeps none.
    pub _marker: PhantomData<T>,
}

impl<T: Hashable> View for MerkleTree<T> {
    type V = Seq<Seq<Seq<char>>>;

    /// The layers, bottom first, each as the sequence of its fingerprints.
    open spec fn view(&self) -> Seq<Seq<Seq<char>>> {
        self.layers.deep_view()
    }
}

/// Computes the layer above `layer`.
pub fn reduce_layer(layer: &Vec<String>) -> (next: Vec<String>)
    ensures
        next.deep_view() == next_layer(layer.deep_view()),
{
    let n = layer.len();
    let pairs = n / 2 + n % 2;
    let mut next: Vec<String> = Vec::new();
    let mut k: usize = 0;
    while k < pairs
        invariant
            n == layer@.len(),
            pairs == (n + 1) / 2,
            k <= pairs,
            next@.len() == k,
            forall|j: int|
                0 <= j < k ==> (#[trigger] next@[j])@ == pair_fingerprint(
                    layer.deep_view()[2 * j],
                    right_partner(layer.deep_view(), j),
                ),
        decreases pairs - k,
    {
        let left = &layer[2 * k];
        let right = if 2 * k + 1 < n {
            &layer[2 * k + 1]
        } else {
            left
        };
        next.push(hash_pair(left.as_str(), right.as_str()));
        k += 1;
    }
    assert(next.deep_view() =~= next_layer(layer.deep_view()));
    next
}

impl<T: Hashable> MerkleTree<T> {
    /// The layers form a complete tree over the bottom layer.
    pub open spec fn wf(&self) -> bool {
        is_tree_over(self@, self@[0])
    }

    /// This is a tree of `items`: a complete tree whose bottom layer holds,
    /// for each item and in the order of the items, a hash of that item.
    pub open spec fn is_built_from(&self, items: Seq<T>) -> bool {
        &&& self.wf()
        &&& self@[0].len() == items.len()
        &&& forall|i: int| 0 <= i < items.len() ==> is_hash_of(items[i], #[trigger] self@[0][i])
    }

    /// The root: the single fingerprint of the top layer.
    pub open spec fn spec_root(&self) -> Seq<char> {
        self@.last()[0]
    }

    /// Builds the tree over `leaves`, which become its bottom layer. Fails if
    /// and only if there are no leaves.
    pub fn from_leaves(leaves: Vec<String>) -> (result: Result<Self, String>)
        ensures
            result is Err <==> leaves@.len() == 0,
            result matches Err(message) ==> message@ == empty_input_message(),
            result matches Ok(tree) ==> {
                &&& is_tree_over(tree@, leaves.deep_view())
                &&& is_ceil_log2(leaves@.len(), (tree@.len() - 1) as nat)
            },
    {
        if leaves.len() == 0 {
            return Err("Cannot create a Merkle Tree with no data.".to_owned());
        }
        let ghost bottom = leaves.deep_view();
        let mut layers: Vec<Vec<String>> = Vec::new();
        layers.push(leaves);
        assert(layers.deep_view() =~= seq![bottom]);
        while layers[layers.len() - 1].len() > 1
            invariant
                layers@.len() >= 1,
                layers.deep_view()[0] == bottom,
                layers@.last()@.len() >= 1,
                forall|i: int|
                    0 <= i < layers@.len() - 1 ==> #[trigger] is_reduction_step(
                        layers.deep_view(),
                        i,
                    ),
            decreases layers@.last()@.len(),
        {
            let ghost below = layers.deep_view();
            let ghost top = layers@.last().deep_view();
            let next = reduce_layer(&layers[layers.len() - 1]);
            proof {
                assert(top == below.last());
                assert(next.deep_view().len() == (top.len() + 1) / 2);
                assert(next@.len() == next.deep_view().len());
            }
            layers.push(next);
            proof {
                let above = layers.deep_view();
                assert(above =~= below.push(next_layer(top)));
                assert forall|i: int| 0 <= i < layers@.len() - 1 implies #[trigger] is_reduction_step(
                    above,
                    i,
                ) by {
                    if i < below.len() - 1 {
                        assert(is_reduction_step(below, i));
                    }
                }
            }
        }
        let tree = MerkleTree { layers, _marker: PhantomData };
        proof {
            assert(tree@.last().len() == layers@.last()@.len());
            lemma_layer_count(tree@, bottom);
        }
        Ok(tree)
    }

    /// Builds the tree of `data`: every item is hashed, in order, and the
    /// hashes become the leaves. Fails, before anything is hashed, if and
    /// only if `data` is empty.
    pub fn new(data: Vec<T>) -> (result: Result<Self, String>)
        ensures
            result is Err <==> data@.len() == 0,
            result matches Err(message) ==> message@ == empty_input_message(),
            result matches Ok(tree) ==> {
                &&& tree.is_built_from(data@)
                &&& is_ceil_log2(data@.len(), (tree@.len() - 1) as nat)
            },
    {
        if data.len() == 0 {
            return Err("Cannot create a Merkle Tree with no data.".to_owned());
        }
        let mut first_layer: Vec<String> = Vec::new();
        let mut i: usize = 0;
        while i < data.len()
            invariant
                i <= data.len(),
                first_layer@.len() == i,
                forall|j: int| 0 <= j < i ==> is_hash_of(data@[j], (#[trigger] first_layer@[j])@),
            decreases data.len() - i,
        {
            let hash = data[i].to_hash();
            assert(is_hash_of(data@[i as int], hash@));
            first_layer.push(hash);
            i += 1;
        }
        let ghost leaves = first_layer.deep_view();
        let result = Self::from_leaves(first_layer);
        proof {
            if result is Ok {
                let tree = result->Ok_0;
                assert forall|i: int| 0 <= i < data@.len() implies is_hash_of(
                    data@[i],
                    #[trigger] tree@[0][i],
                ) by {
                    assert(leaves[i] == first_layer@[i]@);
                }
            }
        }
        result
    }

    /// The root fingerprint.
    pub fn root(&self) -> (root: &str)
        requires
            self.layers@.len() > 0,
            self.layers@.last()@.len() > 0,
        ensures
            root@ == self.spec_root(),
    {
        self.layers[self.layers.len() - 1][0].as_str()
    }

    /// The number of layers.
    pub fn depth(&self) -> (depth: usize)
        ensures
            depth == self@.len(),
    {
        self.layers.len()
    }
}

} // verus!
