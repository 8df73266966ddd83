//! The digest that a tower is built over.

use crate::bytes;
use std::fmt::Debug;
use std::marker::PhantomData;
use vstd::prelude::*;

verus! {

/// A function on byte strings of which nothing is known but that it is one.
/// There is one for each type `D`.
pub open spec fn some_item_digest<D>() -> spec_fn(Seq<u8>) -> Seq<u8> {
    arbitrary::<(PhantomData<D>, spec_fn(Seq<u8>) -> Seq<u8>)>().1
}

/// A function on ordered groups of byte strings of which nothing is known but
/// that it is one. There is one for each type `D`.
pub open spec fn some_group_digest<D>() -> spec_fn(Seq<Seq<u8>>) -> Seq<u8> {
    arbitrary::<(PhantomData<D>, spec_fn(Seq<Seq<u8>>) -> Seq<u8>)>().1
}

/// A deterministic digest: one function on single items and one on ordered
/// groups of items. Digests are byte strings, so that a digest can itself be
/// an item of a group.
///
/// An implementation outside this crate gets the two functions as unknowns:
/// all that is then assumed of its methods is that each returns the same
/// bytes whenever it is given the same bytes.
pub trait Digest: Clone + Debug + PartialEq + Eq {
    /// The digest of one item.
    open spec fn item_digest(item: Seq<u8>) -> Seq<u8> {
        some_item_digest::<Self>()(item)
    }

    /// The digest of an ordered group of items.
    open spec fn group_digest(items: Seq<Seq<u8>>) -> Seq<u8> {
        some_group_digest::<Self>()(items)
    }

    /// Computes the digest of a single item.
    fn digest_item(item: &[u8]) -> (out: Vec<u8>)
        ensures
            out@ == Self::item_digest(item@),
    ;

    /// Computes the digest of an ordered group of items.
    fn digest_items(items: &[Vec<u8>]) -> (out: Vec<u8>)
        ensures
            out@ == Self::group_digest(items.deep_view()),
    ;
}

/// SHA-256 of a byte string.
pub uninterp spec fn sha256(data: Seq<u8>) -> Seq<u8>;

/// Calls `Sha256::digest` of the `sha2` crate, which hashes the whole of
/// `data` in one go. The contract is taken on trust: it names the result, so
/// that equal bytes give an equal hash, and it gives the length that the
/// crate fixes for the output of SHA-256, 32 bytes.
#[verifier::external_body]
fn sha256_of(data: &[u8]) -> (out: Vec<u8>)
    ensures
        out@ == sha256(data@),
        out@.len() == 32,
{
    <sha2::Sha256 as sha2::Digest>::digest(data).to_vec()
}

/// SHA-256: an item is hashed as it is, a group as its items one after
/// another.
#[derive(Debug, PartialEq, Eq)]
pub struct Sha256Digest;

impl Clone for Sha256Digest {
    fn clone(&self) -> (out: Self) {
        Sha256Digest
    }
}

impl Digest for Sha256Digest {
    open spec fn item_digest(item: Seq<u8>) -> Seq<u8> {
        sha256(item)
    }

    open spec fn group_digest(items: Seq<Seq<u8>>) -> Seq<u8> {
        sha256(bytes::joined(items))
    }

    fn digest_item(item: &[u8]) -> (out: Vec<u8>)
        ensures
            out@.len() == 32,
    {
        sha256_of(item)
    }

    fn digest_items(items: &[Vec<u8>]) -> (out: Vec<u8>)
        ensures
            out@.len() == 32,
    {
        let all = bytes::join(items);
        sha256_of(all.as_slice())
    }
}

/// Under SHA-256 a group of one item has the digest of that item.
pub proof fn lemma_sha256_group_of_one(item: Seq<u8>)
    ensures
        Sha256Digest::group_digest(seq![item]) == Sha256Digest::item_digest(item),
{
    reveal_with_fuel(bytes::joined, 2);
    assert(seq![item].drop_last() =~= Seq::<Seq<u8>>::empty());
    assert(bytes::joined(seq![item]) =~= item);
}

} // verus!
