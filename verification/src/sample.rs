//! Random trees for fixtures: branches of key/value pairs whose bytes are
//! ASCII letters and digits.

use crate::node::{lemma_views, views, EAddress, EValue, Node, Tree};
use rand::distributions::{Alphanumeric, DistString};
use vstd::prelude::*;

verus! {

/// `b` is an ASCII letter or digit.
pub open spec fn is_alphanumeric(b: u8) -> bool {
    ||| 0x30 <= b <= 0x39
    ||| 0x41 <= b <= 0x5a
    ||| 0x61 <= b <= 0x7a
}

/// Every byte of `s` is an ASCII letter or digit.
pub open spec fn all_alphanumeric(s: Seq<u8>) -> bool {
    forall|i: int| 0 <= i < s.len() ==> is_alphanumeric(#[trigger] s[i])
}

/// `s`, then zeros up to `width` bytes.
pub open spec fn zero_padded(s: Seq<u8>, width: int) -> Seq<u8> {
    Seq::new(
        width as nat,
        |i: int|
            if i < s.len() {
                s[i]
            } else {
                0u8
            },
    )
}

/// A key/value pair of letters and digits.
pub open spec fn is_sample_leaf(t: Tree) -> bool {
    &&& t is Leaf
    &&& t->key.len() == 20
    &&& t->value.len() == 32
    &&& all_alphanumeric(t->key)
    &&& all_alphanumeric(t->value)
}

/// A branch of `count` sampled key/value pairs.
pub open spec fn is_sample_branch(t: Tree, count: int) -> bool {
    &&& t is Inner
    &&& t->children.len() == count
    &&& forall|i: int| 0 <= i < count ==> is_sample_leaf(#[trigger] t->children[i])
}

/// A branch of `contract_count` branches of `leaf_count` sampled pairs each.
pub open spec fn is_sample_tree(t: Tree, contract_count: int, leaf_count: int) -> bool {
    &&& t is Inner
    &&& t->children.len() == contract_count
    &&& forall|i: int|
        0 <= i < contract_count ==> is_sample_branch(#[trigger] t->children[i], leaf_count)
}

/// Calls `Alphanumeric.sample_string` of the rand crate with the thread's
/// generator and hands back the string's bytes. The contract claims what
/// holds of every draw: `l` bytes come back, each an ASCII letter or digit,
/// as the distribution picks each from that set of 62. Which bytes come is
/// left open.
#[verifier::external_body]
fn strand(l: usize) -> (r: Vec<u8>)
    ensures
        r@.len() == l,
        all_alphanumeric(r@),
{
    Alphanumeric.sample_string(&mut rand::thread_rng(), l).as_bytes().to_vec()
}

/// A storage word that holds `x`, then zeros.
pub fn eword(x: &[u8]) -> (r: EValue)
    requires
        x@.len() <= 32,
    ensures
        r@ == zero_padded(x@, 32),
{
    let mut bs: EValue = [0u8; 32];
    let mut i: usize = 0;
    while i < x.len()
        invariant
            i <= x@.len() <= 32,
            forall|j: int| 0 <= j < i ==> bs@[j] == x@[j],
            forall|j: int| i <= j < 32 ==> bs@[j] == 0,
        decreases x@.len() - i,
    {
        bs[i] = x[i];
        i += 1;
    }
    assert(bs@ =~= zero_padded(x@, 32));
    bs
}

/// An address that holds `x`, then zeros.
pub fn a(x: &[u8]) -> (r: EAddress)
    requires
        x@.len() <= 20,
    ensures
        r@ == zero_padded(x@, 20),
{
    let mut bs: EAddress = [0u8; 20];
    let mut i: usize = 0;
    while i < x.len()
        invariant
            i <= x@.len() <= 20,
            forall|j: int| 0 <= j < i ==> bs@[j] == x@[j],
            forall|j: int| i <= j < 20 ==> bs@[j] == 0,
        decreases x@.len() - i,
    {
        bs[i] = x[i];
        i += 1;
    }
    assert(bs@ =~= zero_padded(x@, 20));
    bs
}

/// A branch of `count` key/value pairs drawn at random.
pub fn make_inner(count: usize) -> (r: Node<32>)
    ensures
        is_sample_branch(r@, count as int),
{
    let mut children: Vec<Node<32>> = Vec::new();
    let mut i: usize = 0;
    while i < count
        invariant
            i <= count,
            children@.len() == i,
            forall|j: int| 0 <= j < i ==> is_sample_leaf((#[trigger] children@[j]).view()),
        decreases count - i,
    {
        let k = strand(20);
        let v = strand(32);
        let key = a(k.as_slice());
        let value = eword(v.as_slice());
        assert(key@ =~= k@);
        assert(value@ =~= v@);
        children.push(Node::Leaf { key, value });
        i += 1;
    }
    proof {
        lemma_views(children@);
    }
    Node::Inner { children }
}

impl<const HASH_LEN: usize> Node<HASH_LEN> {
    /// A tree of `contract_count` branches with `leaf_count` random
    /// key/value pairs each.
    pub fn random_tree(contract_count: usize, leaf_count: usize) -> (r: Node<32>)
        ensures
            is_sample_tree(r@, contract_count as int, leaf_count as int),
    {
        let mut children: Vec<Node<32>> = Vec::new();
        let mut i: usize = 0;
        while i < contract_count
            invariant
                i <= contract_count,
                children@.len() == i,
                forall|j: int|
                    0 <= j < i ==> is_sample_branch(
                        (#[trigger] children@[j]).view(),
                        leaf_count as int,
                    ),
            decreases contract_count - i,
        {
            children.push(make_inner(leaf_count));
            i += 1;
        }
        proof {
            lemma_views(children@);
        }
        Node::Inner { children }
    }
}

} // verus!
