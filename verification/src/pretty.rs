//! An indented dump of a tree, one node per line, as bytes.

use crate::node::{
    forest_encoding, lemma_views, tree_encoding, views, DecodeError, Node, Tree,
};
use vstd::prelude::*;

verus! {

/// The decimal digits of `n` in ASCII.
pub open spec fn decimal(n: nat) -> Seq<u8>
    decreases n,
{
    if n < 10 {
        seq![(0x30 + n) as u8]
    } else {
        decimal(n / 10).push((0x30 + n % 10) as u8)
    }
}

/// Two spaces for each level of `depth`.
pub open spec fn indent(depth: nat) -> Seq<u8> {
    Seq::new(2 * depth, |i: int| 0x20u8)
}

/// The text `Inner-`.
pub open spec fn inner_label() -> Seq<u8> {
    seq![0x49u8, 0x6e, 0x6e, 0x65, 0x72, 0x2d]
}

/// The text ` -> `, which parts a key from its value.
pub open spec fn arrow() -> Seq<u8> {
    seq![0x20u8, 0x2d, 0x3e, 0x20]
}

/// The text `H := `, which opens the line of a pruned subtree.
pub open spec fn hash_label() -> Seq<u8> {
    seq![0x48u8, 0x20, 0x3a, 0x3d, 0x20]
}

/// The text `unknown node type: `.
pub open spec fn unknown_tag_label() -> Seq<u8> {
    seq![
        0x75u8, 0x6e, 0x6b, 0x6e, 0x6f, 0x77, 0x6e, 0x20, 0x6e, 0x6f, 0x64, 0x65, 0x20, 0x74, 0x79,
        0x70, 0x65, 0x3a, 0x20,
    ]
}

/// What an error says: for a byte that is no tag, the label and the byte
/// in decimal.
pub open spec fn error_text(e: DecodeError) -> Seq<u8> {
    match e {
        DecodeError::UnknownTag { tag } => unknown_tag_label() + decimal(tag as nat),
    }
}

/// The dump of `t` at `depth`: its own line, indented, then its children
/// one level deeper. Keys, values and hashes stand as their raw bytes.
pub open spec fn tree_text(t: Tree, depth: nat) -> Seq<u8>
    decreases t,
{
    match t {
        Tree::Inner { children } => indent(depth) + inner_label() + decimal(depth) + seq![0x0au8]
            + forest_text(children, depth + 1),
        Tree::Leaf { key, value } => indent(depth) + key + arrow() + value + seq![0x0au8],
        Tree::Hashed { hash } => indent(depth) + hash_label() + hash + seq![0x0au8],
    }
}

/// The dumps of `ts` at `depth`, one after the other.
pub open spec fn forest_text(ts: Seq<Tree>, depth: nat) -> Seq<u8>
    decreases ts,
{
    if ts.len() == 0 {
        Seq::empty()
    } else {
        forest_text(ts.drop_last(), depth) + tree_text(ts.last(), depth)
    }
}

/// The number of branches on the longest way down from `t`.
pub open spec fn tree_height(t: Tree) -> nat
    decreases t,
{
    match t {
        Tree::Inner { children } => 1 + forest_height(children),
        Tree::Leaf { .. } => 0,
        Tree::Hashed { .. } => 0,
    }
}

/// The greatest height among `ts`.
pub open spec fn forest_height(ts: Seq<Tree>) -> nat
    decreases ts,
{
    if ts.len() == 0 {
        0
    } else {
        let rest = forest_height(ts.drop_last());
        let last = tree_height(ts.last());
        if rest < last {
            last
        } else {
            rest
        }
    }
}

/// No tree of a forest is higher than the forest.
pub proof fn lemma_forest_height(ts: Seq<Tree>, i: int)
    requires
        0 <= i < ts.len(),
    ensures
        tree_height(ts[i]) <= forest_height(ts),
    decreases ts.len(),
{
    if i < ts.len() - 1 {
        lemma_forest_height(ts.drop_last(), i);
    }
}

/// A tree is no higher than its encoding is long: whoever holds the
/// encoding in memory holds a tree whose height fits `usize`.
pub proof fn lemma_height_below_encoding(t: Tree)
    ensures
        tree_height(t) <= tree_encoding(t).len(),
    decreases t, 0nat,
{
    match t {
        Tree::Inner { children } => {
            lemma_forest_height_below_encoding(children);
        },
        Tree::Leaf { .. } => {},
        Tree::Hashed { .. } => {},
    }
}

/// A forest is no higher than its encoding is long.
pub proof fn lemma_forest_height_below_encoding(ts: Seq<Tree>)
    ensures
        forest_height(ts) <= forest_encoding(ts).len(),
    decreases ts, 1nat,
{
    if ts.len() > 0 {
        lemma_forest_height_below_encoding(ts.drop_last());
        lemma_height_below_encoding(ts.last());
    }
}

/// Appends the decimal digits of `n`.
fn push_decimal(out: &mut Vec<u8>, n: usize)
    ensures
        final(out)@ == old(out)@ + decimal(n as nat),
    decreases n,
{
    if n >= 10 {
        push_decimal(out, n / 10);
    }
    out.push(48 + (n % 10) as u8);
    assert(out@ =~= old(out)@ + decimal(n as nat));
}

/// Appends two spaces for each level of `depth`.
fn push_indent(out: &mut Vec<u8>, depth: usize)
    ensures
        final(out)@ == old(out)@ + indent(depth as nat),
{
    let mut i: usize = 0;
    assert(out@ =~= old(out)@ + indent(0));
    while i < depth
        invariant
            i <= depth,
            out@ == old(out)@ + indent(i as nat),
        decreases depth - i,
    {
        out.push(0x20);
        out.push(0x20);
        assert(out@ =~= old(out)@ + indent((i + 1) as nat));
        i += 1;
    }
}

impl DecodeError {
    /// What this error says, in ASCII.
    pub fn message(&self) -> (r: Vec<u8>)
        ensures
            r@ == error_text(*self),
    {
        match self {
            DecodeError::UnknownTag { tag } => {
                let mut r: Vec<u8> = vec![
                    0x75u8, 0x6e, 0x6b, 0x6e, 0x6f, 0x77, 0x6e, 0x20, 0x6e, 0x6f, 0x64, 0x65, 0x20,
                    0x74, 0x79, 0x70, 0x65, 0x3a, 0x20,
                ];
                assert(r@ =~= unknown_tag_label());
                push_decimal(&mut r, *tag as usize);
                r
            },
        }
    }
}

impl<const HASH_LEN: usize> Node<HASH_LEN> {
    /// The dump of this tree, from depth 0.
    pub fn pretty(&self) -> (r: Vec<u8>)
        requires
            tree_height(self@) <= usize::MAX,
        ensures
            r@ == tree_text(self@, 0),
    {
        let mut r: Vec<u8> = Vec::new();
        self._pretty(0, &mut r);
        r
    }

    /// Appends the dump of this tree at `depth` to `r`.
    fn _pretty(&self, depth: usize, r: &mut Vec<u8>)
        requires
            depth + tree_height(self@) <= usize::MAX,
        ensures
            final(r)@ == old(r)@ + tree_text(self@, depth as nat),
        decreases self,
    {
        push_indent(r, depth);
        match self {
            Node::Inner { children } => {
                r.push(0x49);
                r.push(0x6e);
                r.push(0x6e);
                r.push(0x65);
                r.push(0x72);
                r.push(0x2d);
                push_decimal(r, depth);
                r.push(0x0a);
                let ghost head = old(r)@ + indent(depth as nat) + inner_label() + decimal(
                    depth as nat,
                ) + seq![0x0au8];
                assert(r@ =~= head);
                assert(forest_text(views(children@.take(0)), (depth + 1) as nat) =~= Seq::<
                    u8,
                >::empty());
                assert(r@ =~= head + Seq::<u8>::empty());
                let mut i: usize = 0;
                while i < children.len()
                    invariant
                        i <= children@.len(),
                        self is Inner,
                        self->children == children,
                        depth + tree_height(self@) <= usize::MAX,
                        r@ == head + forest_text(
                            views(children@.take(i as int)),
                            (depth + 1) as nat,
                        ),
                    decreases children@.len() - i,
                {
                    proof {
                        lemma_views(children@);
                        lemma_forest_height(views(children@), i as int);
                    }
                    children[i]._pretty(depth + 1, r);
                    proof {
                        assert(children@.take(i + 1).drop_last() =~= children@.take(i as int));
                        assert(views(children@.take(i + 1)).drop_last() =~= views(
                            children@.take(i as int),
                        ));
                        lemma_views(children@.take(i + 1));
                        assert(r@ =~= head + forest_text(
                            views(children@.take(i + 1)),
                            (depth + 1) as nat,
                        ));
                    }
                    i += 1;
                }
                assert(children@.take(i as int) =~= children@);
                assert(r@ =~= old(r)@ + tree_text(self@, depth as nat));
            },
            Node::Leaf { key, value } => {
                r.extend_from_slice(key.as_slice());
                r.push(0x20);
                r.push(0x2d);
                r.push(0x3e);
                r.push(0x20);
                r.extend_from_slice(value.as_slice());
                r.push(0x0a);
                assert(r@ =~= old(r)@ + tree_text(self@, depth as nat));
            },
            Node::HashedSubTree { hash } => {
                r.push(0x48);
                r.push(0x20);
                r.push(0x3a);
                r.push(0x3d);
                r.push(0x20);
                r.extend_from_slice(hash.as_slice());
                r.push(0x0a);
                assert(r@ =~= old(r)@ + tree_text(self@, depth as nat));
            },
        }
    }
}

} // verus!
