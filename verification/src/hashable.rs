//! The capability that makes a type usable as a leaf of the tree.

use crate::hash::{hash_data, text_fingerprint};
use vstd::prelude::*;

verus! {

/// A value that has a fingerprint of its own.
///
/// An implementation is expected to be a function of the value: the same
/// text for the same value, every time, and never a failure. The tree applies
/// `to_hash` to leaves only, never to the nodes above them.
pub trait Hashable {
    /// Computes the fingerprint of this value.
    fn to_hash(&self) -> String;
}

/// `text` is what a call of `to_hash` on `item` may return.
pub open spec fn is_hash_of<T: Hashable>(item: T, text: Seq<char>) -> bool {
    exists|hash: String| hash@ == text && call_ensures(T::to_hash, (&item,), hash)
}

/// `to_hash` is a function on `T`: on one value it returns one text only.
pub open spec fn hashes_as_function<T: Hashable>() -> bool {
    forall|item: T, first: Seq<char>, second: Seq<char>|
        #![trigger is_hash_of(item, first), is_hash_of(item, second)]
        is_hash_of(item, first) && is_hash_of(item, second) ==> first == second
}

/// A text is fingerprinted by hashing its UTF-8 bytes.
impl Hashable for String {
    fn to_hash(&self) -> (hash: String)
        ensures
            hash@ == text_fingerprint(self@),
    {
        hash_data(self.as_str())
    }
}

/// The only hash of a text is the fingerprint of its UTF-8 bytes.
pub proof fn lemma_hash_of_text(item: String, text: Seq<char>)
    requires
        is_hash_of(item, text),
    ensures
        text == text_fingerprint(item@),
{
}

/// On texts `to_hash` is a function.
pub proof fn lemma_texts_hash_as_function()
    ensures
        hashes_as_function::<String>(),
{
    assert forall|item: String, first: Seq<char>, second: Seq<char>|
        #![trigger is_hash_of(item, first), is_hash_of(item, second)]
        is_hash_of(item, first) && is_hash_of(item, second) implies first == second by {
        lemma_hash_of_text(item, first);
        lemma_hash_of_text(item, second);
    }
}

} // verus!
