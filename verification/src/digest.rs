//! The content hash of a tree: SHA-256 over its keys, values and stored
//! hashes in pre-order.

use crate::node::{forest_content, lemma_views, tree_content, views, Node};
use sha2::{Digest, Sha256};
use vstd::prelude::*;

verus! {

/// The SHA-256 digest of `data`.
pub uninterp spec fn sha256_digest(data: Seq<u8>) -> Seq<u8>;

/// Calls `Sha256::digest` of the sha2 crate on `data` and copies the output
/// into a vector. The contract names the result and claims its length: the
/// output type of `Sha256` is an array of 32 bytes. That the digest is the
/// SHA-256 of the input rests on that crate and is not proved here.
#[verifier::external_body]
fn sha256(data: &[u8]) -> (r: Vec<u8>)
    ensures
        r@ == sha256_digest(data@),
        r@.len() == 32,
{
    Sha256::digest(data).to_vec()
}

impl<const HASH_LEN: usize> Node<HASH_LEN> {
    /// The digest of this tree: SHA-256 of its content. A pruned subtree
    /// contributes its stored hash as it stands.
    pub fn hash(&self) -> (r: Vec<u8>)
        ensures
            r@ == sha256_digest(tree_content(self@)),
            r@.len() == 32,
    {
        let data = self.content();
        sha256(data.as_slice())
    }

    /// The bytes that the digest is taken of: each key, value and stored
    /// hash, in pre-order.
    pub fn content(&self) -> (r: Vec<u8>)
        ensures
            r@ == tree_content(self@),
    {
        let mut out: Vec<u8> = Vec::new();
        self.content_into(&mut out);
        out
    }

    /// Appends the content of this tree to `out`.
    fn content_into(&self, out: &mut Vec<u8>)
        ensures
            final(out)@ == old(out)@ + tree_content(self@),
        decreases self,
    {
        match self {
            Node::Inner { children } => {
                let mut i: usize = 0;
                assert(forest_content(views(children@.take(0))) =~= Seq::<u8>::empty());
                assert(out@ =~= old(out)@ + Seq::<u8>::empty());
                while i < children.len()
                    invariant
                        i <= children@.len(),
                        self is Inner,
                        self->children == children,
                        out@ == old(out)@ + forest_content(views(children@.take(i as int))),
                    decreases children@.len() - i,
                {
                    children[i].content_into(out);
                    proof {
                        assert(children@.take(i + 1).drop_last() =~= children@.take(i as int));
                        assert(views(children@.take(i + 1)).drop_last() =~= views(
                            children@.take(i as int),
                        ));
                        lemma_views(children@.take(i + 1));
                        assert(out@ =~= old(out)@ + forest_content(views(children@.take(i + 1))));
                    }
                    i += 1;
                }
                assert(children@.take(i as int) =~= children@);
            },
            Node::Leaf { key, value } => {
                out.extend_from_slice(key.as_slice());
                out.extend_from_slice(value.as_slice());
                assert(out@ =~= old(out)@ + tree_content(self@));
            },
            Node::HashedSubTree { hash } => {
                out.extend_from_slice(hash.as_slice());
            },
        }
    }
}

} // verus!
