//! The node tree: its mathematical model, its canonical encoding and the
//! decoder that reads the encoding back.

use crate::buf_view::{le_nat, lemma_le_nat_bound, lemma_pow256_values, pow256, BufView};
use vstd::prelude::*;

verus! {

/// A 32-byte storage word.
pub type EValue = [u8; 32];

/// A 20-byte address.
pub type EAddress = [u8; 20];

/// The tag byte of a branch.
pub const TAG_INNER: u8 = 1;

/// The tag byte of a key/value pair.
pub const TAG_LEAF: u8 = 2;

/// The tag byte of a pruned subtree.
pub const TAG_HASHED: u8 = 3;

/// What a node is, as plain mathematical data.
pub enum Tree {
    Inner { children: Seq<Tree> },
    Leaf { key: Seq<u8>, value: Seq<u8> },
    Hashed { hash: Seq<u8> },
}

/// The `width` low bytes of `n`, least significant first.
pub open spec fn le_bytes(n: nat, width: nat) -> Seq<u8>
    decreases width,
{
    if width == 0 {
        Seq::empty()
    } else {
        seq![(n % 256) as u8] + le_bytes(n / 256, (width - 1) as nat)
    }
}

/// The canonical bytes of a tree: tag, then payload, children in order.
pub open spec fn tree_encoding(t: Tree) -> Seq<u8>
    decreases t,
{
    match t {
        Tree::Inner { children } => seq![TAG_INNER] + le_bytes(children.len(), 8)
            + forest_encoding(children),
        Tree::Leaf { key, value } => seq![TAG_LEAF] + key + value,
        Tree::Hashed { hash } => seq![TAG_HASHED] + hash,
    }
}

/// The encodings of `ts`, one after the other.
pub open spec fn forest_encoding(ts: Seq<Tree>) -> Seq<u8>
    decreases ts,
{
    if ts.len() == 0 {
        Seq::empty()
    } else {
        forest_encoding(ts.drop_last()) + tree_encoding(ts.last())
    }
}

/// The bytes that a tree feeds to the digest: keys, values and stored
/// hashes in pre-order; a branch adds nothing of its own.
pub open spec fn tree_content(t: Tree) -> Seq<u8>
    decreases t,
{
    match t {
        Tree::Inner { children } => forest_content(children),
        Tree::Leaf { key, value } => key + value,
        Tree::Hashed { hash } => hash,
    }
}

/// The contents of `ts`, one after the other.
pub open spec fn forest_content(ts: Seq<Tree>) -> Seq<u8>
    decreases ts,
{
    if ts.len() == 0 {
        Seq::empty()
    } else {
        forest_content(ts.drop_last()) + tree_content(ts.last())
    }
}

/// The field widths are those of the wire format with `hash_len`-byte
/// hashes, and every child count fits the 8-byte count field.
pub open spec fn tree_valid(t: Tree, hash_len: int) -> bool
    decreases t,
{
    match t {
        Tree::Inner { children } => children.len() < 0x1_0000_0000_0000_0000 && forall|i: int|
            0 <= i < children.len() ==> tree_valid(#[trigger] children[i], hash_len),
        Tree::Leaf { key, value } => key.len() == 20 && value.len() == 32,
        Tree::Hashed { hash } => hash.len() == hash_len,
    }
}

/// What decoding comes to.
pub enum Decoded {
    /// A tree, and the offset just past its encoding.
    Parsed { tree: Tree, end: int },
    /// A tag byte that names no node kind, and the offset just past it.
    UnknownTag { tag: u8, after: int },
    /// A field runs past the end of the bytes.
    Short,
}

/// Decodes one node of `s` at `pos`: a tag byte, then what the tag calls for.
pub open spec fn decode(s: Seq<u8>, pos: int, hash_len: int) -> Decoded
    decreases s.len() - pos, 0nat,
{
    if pos < 0 || pos >= s.len() {
        Decoded::Short
    } else if s[pos] == TAG_INNER {
        decode_inner(s, pos + 1, hash_len)
    } else if s[pos] == TAG_LEAF {
        decode_leaf(s, pos + 1)
    } else if s[pos] == TAG_HASHED {
        decode_hash(s, pos + 1, hash_len)
    } else {
        Decoded::UnknownTag { tag: s[pos], after: pos + 1 }
    }
}

/// Decodes the payload of a branch at `pos`: an 8-byte little-endian count,
/// then that many nodes.
pub open spec fn decode_inner(s: Seq<u8>, pos: int, hash_len: int) -> Decoded
    decreases s.len() - pos, 0nat,
{
    if pos < 0 || pos + 8 > s.len() {
        Decoded::Short
    } else {
        decode_children(s, pos + 8, hash_len, le_nat(s.subrange(pos, pos + 8)))
    }
}

/// Decodes `count` nodes of `s` one after the other from `start`, and
/// gathers them under a branch. The first node that fails decides.
pub open spec fn decode_children(s: Seq<u8>, start: int, hash_len: int, count: nat) -> Decoded
    decreases s.len() - start, count + 1,
{
    if count == 0 {
        Decoded::Parsed { tree: Tree::Inner { children: Seq::empty() }, end: start }
    } else {
        let prev = decode_children(s, start, hash_len, (count - 1) as nat);
        if prev is Parsed {
            if prev->tree is Inner && start <= prev->end <= s.len() {
                let next = decode(s, prev->end, hash_len);
                if next is Parsed {
                    Decoded::Parsed {
                        tree: Tree::Inner { children: prev->tree->children.push(next->tree) },
                        end: next->end,
                    }
                } else {
                    next
                }
            } else {
                Decoded::Short
            }
        } else {
            prev
        }
    }
}

/// Decodes the payload of a key/value pair at `pos`.
pub open spec fn decode_leaf(s: Seq<u8>, pos: int) -> Decoded {
    if pos < 0 || pos + 52 > s.len() {
        Decoded::Short
    } else {
        Decoded::Parsed {
            tree: Tree::Leaf { key: s.subrange(pos, pos + 20), value: s.subrange(pos + 20, pos + 52) },
            end: pos + 52,
        }
    }
}

/// Decodes the payload of a pruned subtree at `pos`.
pub open spec fn decode_hash(s: Seq<u8>, pos: int, hash_len: int) -> Decoded {
    if pos < 0 || pos + hash_len > s.len() {
        Decoded::Short
    } else {
        Decoded::Parsed { tree: Tree::Hashed { hash: s.subrange(pos, pos + hash_len) }, end: pos + hash_len }
    }
}

/// Why a buffer does not decode.
#[derive(Debug, Clone, Copy, PartialEq, Eq, Structural)]
pub enum DecodeError {
    /// A node opens with a byte that is no tag.
    UnknownTag { tag: u8 },
}

/// A node of the tree.
#[derive(Debug, PartialEq, Eq)]
pub enum Node<const HASH_LEN: usize> {
    /// A branch: an ordered sequence of children.
    Inner { children: Vec<Node<HASH_LEN>> },
    /// A key/value pair.
    Leaf { key: EAddress, value: EValue },
    /// The digest of a subtree, standing in for it.
    HashedSubTree { hash: [u8; HASH_LEN] },
}

/// The models of `nodes`, in order.
pub open spec fn views<const HASH_LEN: usize>(nodes: Seq<Node<HASH_LEN>>) -> Seq<Tree>
    decreases nodes,
{
    if nodes.len() == 0 {
        Seq::empty()
    } else {
        views(nodes.drop_last()).push(nodes.last().view())
    }
}

impl<const HASH_LEN: usize> View for Node<HASH_LEN> {
    type V = Tree;

    open spec fn view(&self) -> Tree
        decreases self,
    {
        match self {
            Node::Inner { children } => Tree::Inner { children: views(children@) },
            Node::Leaf { key, value } => Tree::Leaf { key: key@, value: value@ },
            Node::HashedSubTree { hash } => Tree::Hashed { hash: hash@ },
        }
    }
}

/// `views` keeps the length and models each node in its place.
pub proof fn lemma_views<const HASH_LEN: usize>(nodes: Seq<Node<HASH_LEN>>)
    ensures
        views(nodes).len() == nodes.len(),
        forall|i: int| 0 <= i < nodes.len() ==> (#[trigger] views(nodes)[i]) == nodes[i].view(),
    decreases nodes.len(),
{
    if nodes.len() > 0 {
        lemma_views(nodes.drop_last());
        assert(views(nodes) == views(nodes.drop_last()).push(nodes.last().view()));
    } else {
        assert(views(nodes) == Seq::<Tree>::empty());
    }
}

/// Once a child fails, more children change nothing.
pub proof fn lemma_failure_sticks(s: Seq<u8>, start: int, hash_len: int, i: nat, k: nat)
    requires
        i <= k,
        !(decode_children(s, start, hash_len, i) is Parsed),
    ensures
        decode_children(s, start, hash_len, k) == decode_children(s, start, hash_len, i),
    decreases k,
{
    if i < k {
        lemma_failure_sticks(s, start, hash_len, i, (k - 1) as nat);
    }
}

/// The `width` bytes of a number below `256^width` spell that number.
pub proof fn lemma_le_bytes_value(n: nat, width: nat)
    requires
        n < pow256(width),
    ensures
        le_bytes(n, width).len() == width,
        le_nat(le_bytes(n, width)) == n,
    decreases width,
{
    if width > 0 {
        let rest = le_bytes(n / 256, (width - 1) as nat);
        lemma_le_bytes_value(n / 256, (width - 1) as nat);
        assert(le_bytes(n, width).skip(1) =~= rest);
    }
}

/// Decoding the encoding of a valid tree, wherever it lies in `s`, gives
/// the tree back and ends just past the encoding.
pub proof fn lemma_decode_encoding(t: Tree, hash_len: int, s: Seq<u8>, pos: int)
    requires
        tree_valid(t, hash_len),
        0 <= pos,
        pos + tree_encoding(t).len() <= s.len(),
        s.subrange(pos, pos + tree_encoding(t).len()) == tree_encoding(t),
    ensures
        decode(s, pos, hash_len) == (Decoded::Parsed { tree: t, end: pos + tree_encoding(t).len() }),
    decreases t, 0nat,
{
    let enc = tree_encoding(t);
    let part = s.subrange(pos, pos + enc.len());
    assert(s[pos] == part[0]);
    match t {
        Tree::Inner { children } => {
            let n = children.len();
            let count = le_bytes(n, 8);
            let body = forest_encoding(children);
            lemma_pow256_values();
            lemma_le_bytes_value(n, 8);
            assert(enc =~= seq![TAG_INNER] + count + body);
            assert(s.subrange(pos + 1, pos + 9) =~= part.subrange(1, 9));
            assert(part.subrange(1, 9) =~= count);
            assert(s.subrange(pos + 9, pos + 9 + body.len()) =~= part.subrange(
                9,
                9 + body.len() as int,
            ));
            assert(part.subrange(9, 9 + body.len() as int) =~= body);
            assert(children.take(n as int) =~= children);
            lemma_decode_forest(children, n, hash_len, s, pos + 9);
        },
        Tree::Leaf { key, value } => {
            assert(s.subrange(pos + 1, pos + 21) =~= part.subrange(1, 21));
            assert(part.subrange(1, 21) =~= key);
            assert(s.subrange(pos + 21, pos + 53) =~= part.subrange(21, 53));
            assert(part.subrange(21, 53) =~= value);
        },
        Tree::Hashed { hash } => {
            assert(s.subrange(pos + 1, pos + 1 + hash_len) =~= part.subrange(1, 1 + hash_len));
            assert(part.subrange(1, 1 + hash_len) =~= hash);
        },
    }
}

/// Decoding the encodings of the first `k` of `children`, laid one after
/// the other from `start`, gives those `k` trees back.
pub proof fn lemma_decode_forest(children: Seq<Tree>, k: nat, hash_len: int, s: Seq<u8>, start: int)
    requires
        k <= children.len(),
        forall|i: int| 0 <= i < children.len() ==> tree_valid(#[trigger] children[i], hash_len),
        0 <= start,
        start + forest_encoding(children.take(k as int)).len() <= s.len(),
        s.subrange(start, start + forest_encoding(children.take(k as int)).len())
            == forest_encoding(children.take(k as int)),
    ensures
        decode_children(s, start, hash_len, k) == (Decoded::Parsed {
            tree: Tree::Inner { children: children.take(k as int) },
            end: start + forest_encoding(children.take(k as int)).len(),
        }),
    decreases children, k,
{
    if k == 0 {
        assert(children.take(0) =~= Seq::<Tree>::empty());
    } else {
        let all = children.take(k as int);
        let before = children.take(k - 1);
        let last = children[k - 1];
        assert(all.drop_last() =~= before);
        assert(all.last() == last);
        let a = forest_encoding(before);
        let b = tree_encoding(last);
        assert(forest_encoding(all) == a + b);
        let part = s.subrange(start, start + a.len() + b.len());
        assert(s.subrange(start, start + a.len()) =~= part.subrange(0, a.len() as int));
        assert(part.subrange(0, a.len() as int) =~= a);
        assert(s.subrange(start + a.len(), start + a.len() + b.len()) =~= part.subrange(
            a.len() as int,
            (a.len() + b.len()) as int,
        ));
        assert(part.subrange(a.len() as int, (a.len() + b.len()) as int) =~= b);
        lemma_decode_forest(children, (k - 1) as nat, hash_len, s, start);
        lemma_decode_encoding(last, hash_len, s, start + a.len());
        assert(before.push(last) =~= all);
    }
}

/// The bytes of the number that `x` spells are `x`.
pub proof fn lemma_le_nat_bytes(x: Seq<u8>)
    ensures
        le_bytes(le_nat(x), x.len()) == x,
    decreases x.len(),
{
    if x.len() > 0 {
        lemma_le_nat_bytes(x.skip(1));
        let n = le_nat(x);
        assert(n % 256 == x[0] as nat);
        assert(n / 256 == le_nat(x.skip(1)));
        assert(le_bytes(n, x.len()) =~= x);
    } else {
        assert(le_bytes(le_nat(x), 0) =~= x);
    }
}

/// What decodes to a tree is that tree's encoding: the tree is valid, and
/// its canonical bytes are the bytes that the decoding went over.
pub proof fn lemma_decoded_encoding(s: Seq<u8>, pos: int, hash_len: int)
    requires
        0 <= hash_len,
        decode(s, pos, hash_len) is Parsed,
    ensures
        pos < decode(s, pos, hash_len)->end <= s.len(),
        tree_valid(decode(s, pos, hash_len)->tree, hash_len),
        tree_encoding(decode(s, pos, hash_len)->tree) == s.subrange(
            pos,
            decode(s, pos, hash_len)->end,
        ),
    decreases s.len() - pos, 0nat,
{
    let d = decode(s, pos, hash_len);
    let t = d->tree;
    let part = s.subrange(pos, d->end);
    if s[pos] == TAG_INNER {
        let x = s.subrange(pos + 1, pos + 9);
        lemma_decoded_forest(s, pos + 9, hash_len, le_nat(x));
        lemma_le_nat_bytes(x);
        lemma_le_nat_bound(x);
        lemma_pow256_values();
        assert(tree_encoding(t) =~= part);
    } else if s[pos] == TAG_LEAF {
        assert(tree_encoding(t) =~= part);
    } else {
        assert(tree_encoding(t) =~= part);
    }
}

/// What decodes to `count` children is their encodings laid one after the
/// other.
pub proof fn lemma_decoded_forest(s: Seq<u8>, start: int, hash_len: int, count: nat)
    requires
        0 <= hash_len,
        0 <= start <= s.len(),
        decode_children(s, start, hash_len, count) is Parsed,
    ensures
        decode_children(s, start, hash_len, count)->tree is Inner,
        decode_children(s, start, hash_len, count)->tree->children.len() == count,
        start <= decode_children(s, start, hash_len, count)->end <= s.len(),
        forall|i: int|
            0 <= i < count ==> tree_valid(
                #[trigger] decode_children(s, start, hash_len, count)->tree->children[i],
                hash_len,
            ),
        forest_encoding(decode_children(s, start, hash_len, count)->tree->children)
            == s.subrange(start, decode_children(s, start, hash_len, count)->end),
    decreases s.len() - start, count + 1,
{
    let d = decode_children(s, start, hash_len, count);
    if count == 0 {
        assert(forest_encoding(d->tree->children) =~= s.subrange(start, start));
    } else {
        let prev = decode_children(s, start, hash_len, (count - 1) as nat);
        lemma_decoded_forest(s, start, hash_len, (count - 1) as nat);
        lemma_decoded_encoding(s, prev->end, hash_len);
        let next = decode(s, prev->end, hash_len);
        let all = d->tree->children;
        assert(all.drop_last() =~= prev->tree->children);
        assert(all.last() == next->tree);
        assert(forest_encoding(all) =~= s.subrange(start, d->end));
    }
}

/// The model of a node has the field widths of the wire format.
pub proof fn lemma_view_valid<const HASH_LEN: usize>(node: Node<HASH_LEN>)
    ensures
        tree_valid(node@, HASH_LEN as int),
    decreases node,
{
    match node {
        Node::Inner { children } => {
            lemma_views(children@);
            assert(children@.len() == children.len());
            assert forall|i: int| 0 <= i < views(children@).len() implies tree_valid(
                #[trigger] views(children@)[i],
                HASH_LEN as int,
            ) by {
                lemma_view_valid(children@[i]);
            }
        },
        Node::Leaf { key, value } => {},
        Node::HashedSubTree { hash } => {},
    }
}

/// Round trip: the bytes that `serialize` gives for a node decode, from
/// their first byte, to that node's tree, and the decoding ends with them.
pub proof fn lemma_round_trip<const HASH_LEN: usize>(node: Node<HASH_LEN>)
    ensures
        decode(tree_encoding(node@), 0, HASH_LEN as int) == (Decoded::Parsed {
            tree: node@,
            end: tree_encoding(node@).len() as int,
        }),
{
    let enc = tree_encoding(node@);
    lemma_view_valid(node);
    assert(enc.subrange(0, enc.len() as int) =~= enc);
    lemma_decode_encoding(node@, HASH_LEN as int, enc, 0);
}

/// Two nodes with the same model have the same canonical bytes, and nodes
/// with the same canonical bytes have the same model.
pub proof fn lemma_encoding_canonical<const HASH_LEN: usize>(a: Node<HASH_LEN>, b: Node<HASH_LEN>)
    ensures
        a@ == b@ <==> tree_encoding(a@) == tree_encoding(b@),
{
    lemma_round_trip(a);
    lemma_round_trip(b);
}

/// A first byte that is no tag is reported by its value, and decoding stops
/// just past it whatever follows.
pub proof fn lemma_unknown_tag(s: Seq<u8>, pos: int, hash_len: int)
    requires
        0 <= pos < s.len(),
        s[pos] != TAG_INNER,
        s[pos] != TAG_LEAF,
        s[pos] != TAG_HASHED,
    ensures
        decode(s, pos, hash_len) == (Decoded::UnknownTag { tag: s[pos], after: pos + 1 }),
{
}

/// What `parse` hands back and where it leaves the reader cursor, for each
/// way the decoding can come out.
pub open spec fn parse_outcome<const HASH_LEN: usize>(
    d: Decoded,
    r: Result<Node<HASH_LEN>, DecodeError>,
    reader: int,
) -> bool {
    match d {
        Decoded::Parsed { tree, end } => r is Ok && r->Ok_0@ == tree && reader == end,
        Decoded::UnknownTag { tag, after } => r == Err::<Node<HASH_LEN>, DecodeError>(
            DecodeError::UnknownTag { tag },
        ) && reader == after,
        Decoded::Short => false,
    }
}

/// What `try_parse` hands back and where it leaves the reader cursor: as
/// `parse` does where the bytes suffice, and nothing, with the cursor where
/// it was, where a field runs past them.
pub open spec fn try_parse_outcome<const HASH_LEN: usize>(
    d: Decoded,
    r: Option<Result<Node<HASH_LEN>, DecodeError>>,
    reader_before: int,
    reader_after: int,
) -> bool {
    if d is Short {
        r is None && reader_after == reader_before
    } else {
        r is Some && parse_outcome(d, r->Some_0, reader_after)
    }
}

/// Appends the eight little-endian bytes of `v`.
fn push_u64_le(out: &mut Vec<u8>, v: u64)
    ensures
        final(out)@ == old(out)@ + le_bytes(v as nat, 8),
{
    let mut rest: u64 = v;
    let mut i: usize = 0;
    while i < 8
        invariant
            i <= 8,
            out@ + le_bytes(rest as nat, (8 - i) as nat) == old(out)@ + le_bytes(v as nat, 8),
        decreases 8 - i,
    {
        let ghost before = out@;
        out.push((rest % 256) as u8);
        proof {
            let tail = le_bytes((rest / 256) as nat, (8 - i - 1) as nat);
            assert(before + le_bytes(rest as nat, (8 - i) as nat) =~= out@ + tail);
        }
        rest = rest / 256;
        i += 1;
    }
    assert(out@ + le_bytes(rest as nat, 0) =~= out@);
}

impl<const HASH_LEN: usize> Node<HASH_LEN> {
    /// The tag byte that opens this node's encoding.
    fn to_id(&self) -> (r: u8)
        ensures
            r == tree_encoding(self@)[0],
            self is Inner ==> r == TAG_INNER,
            self is Leaf ==> r == TAG_LEAF,
            self is HashedSubTree ==> r == TAG_HASHED,
    {
        match self {
            Node::Inner { .. } => TAG_INNER,
            Node::Leaf { .. } => TAG_LEAF,
            Node::HashedSubTree { .. } => TAG_HASHED,
        }
    }

    /// The canonical bytes of this tree.
    pub fn serialize(&self) -> (r: Vec<u8>)
        ensures
            r@ == tree_encoding(self@),
    {
        let mut out: Vec<u8> = Vec::new();
        self.serialize_into(&mut out);
        out
    }

    /// Appends the canonical bytes of this tree to `out`.
    fn serialize_into(&self, out: &mut Vec<u8>)
        ensures
            final(out)@ == old(out)@ + tree_encoding(self@),
        decreases self,
    {
        out.push(self.to_id());
        match self {
            Node::Inner { children } => {
                push_u64_le(out, children.len() as u64);
                let ghost head = old(out)@ + seq![TAG_INNER] + le_bytes(children@.len(), 8);
                let mut i: usize = 0;
                while i < children.len()
                    invariant
                        i <= children@.len(),
                        self is Inner,
                        self->children == children,
                        out@ == head + forest_encoding(views(children@.take(i as int))),
                    decreases children@.len() - i,
                {
                    children[i].serialize_into(out);
                    proof {
                        assert(children@.take(i + 1).drop_last() =~= children@.take(i as int));
                        assert(views(children@.take(i + 1)).drop_last() =~= views(
                            children@.take(i as int),
                        ));
                    }
                    i += 1;
                }
                proof {
                    lemma_views(children@);
                }
                assert(children@.take(i as int) =~= children@);
                assert(out@ =~= old(out)@ + tree_encoding(self@));
            },
            Node::Leaf { key, value } => {
                out.extend_from_slice(key.as_slice());
                out.extend_from_slice(value.as_slice());
                assert(out@ =~= old(out)@ + tree_encoding(self@));
            },
            Node::HashedSubTree { hash } => {
                out.extend_from_slice(hash.as_slice());
                assert(out@ =~= old(out)@ + tree_encoding(self@));
            },
        }
    }

    /// Decodes one node at the reader cursor and steps over it. A tag byte
    /// that names no node kind is reported with the cursor just past it.
    ///
    /// Every field must lie in the readable region. The decoder descends
    /// once for each level of nesting, and a level costs nine bytes, so its
    /// depth is at most one more than a ninth of what is readable.
    pub fn parse(b: &mut BufView) -> (r: Result<Node<HASH_LEN>, DecodeError>)
        requires
            old(b).inv(),
            !(decode(old(b).filled(), old(b).reader(), HASH_LEN as int) is Short),
        ensures
            final(b).inv(),
            final(b).buffer() == old(b).buffer(),
            final(b).writer() == old(b).writer(),
            old(b).reader() <= final(b).reader(),
            parse_outcome(
                decode(old(b).filled(), old(b).reader(), HASH_LEN as int),
                r,
                final(b).reader(),
            ),
        decreases old(b).remaining_len(),
    {
        let tag = b.read_u8();
        if tag == TAG_INNER {
            Self::parse_inner(b)
        } else if tag == TAG_LEAF {
            Self::parse_leaf(b)
        } else if tag == TAG_HASHED {
            Self::parse_hash(b)
        } else {
            Err(DecodeError::UnknownTag { tag })
        }
    }

    /// Decodes one node at the reader cursor as `parse` does, for any bytes:
    /// where a field runs past the readable region, nothing is decoded and
    /// the cursor stays.
    pub fn try_parse(b: &mut BufView) -> (r: Option<Result<Node<HASH_LEN>, DecodeError>>)
        requires
            old(b).inv(),
        ensures
            final(b).inv(),
            final(b).buffer() == old(b).buffer(),
            final(b).writer() == old(b).writer(),
            try_parse_outcome(
                decode(old(b).filled(), old(b).reader(), HASH_LEN as int),
                r,
                old(b).reader(),
                final(b).reader(),
            ),
    {
        let start = b.reader_index();
        let r = Self::parse_checked(b);
        if r.is_none() {
            b.set_reader_index(start);
        }
        r
    }

    /// Decodes one node at the reader cursor, or finds that a field runs
    /// past the readable region.
    fn parse_checked(b: &mut BufView) -> (r: Option<Result<Node<HASH_LEN>, DecodeError>>)
        requires
            old(b).inv(),
        ensures
            final(b).inv(),
            final(b).buffer() == old(b).buffer(),
            final(b).writer() == old(b).writer(),
            old(b).reader() <= final(b).reader(),
            r is None <==> decode(old(b).filled(), old(b).reader(), HASH_LEN as int) is Short,
            r is Some ==> parse_outcome(
                decode(old(b).filled(), old(b).reader(), HASH_LEN as int),
                r->Some_0,
                final(b).reader(),
            ),
        decreases old(b).remaining_len(),
    {
        let ghost s = b.filled();
        if b.remaining() < 1 {
            return None;
        }
        let tag = b.read_u8();
        if tag == TAG_INNER {
            if b.remaining() < 8 {
                return None;
            }
            let ghost start = b.reader() + 8;
            assert(b.field(b.reader(), 8) =~= s.subrange(b.reader(), b.reader() + 8));
            let count = b.read_u64_le();
            let mut children: Vec<Node<HASH_LEN>> = Vec::new();
            let mut i: u64 = 0;
            while i < count
                invariant
                    i <= count,
                    b.inv(),
                    b.buffer() == old(b).buffer(),
                    b.writer() == old(b).writer(),
                    s == old(b).filled(),
                    start == old(b).reader() + 9,
                    start <= b.reader(),
                    decode(s, old(b).reader(), HASH_LEN as int) == decode_children(
                        s,
                        start,
                        HASH_LEN as int,
                        count as nat,
                    ),
                    decode_children(s, start, HASH_LEN as int, i as nat) == (Decoded::Parsed {
                        tree: Tree::Inner { children: views(children@) },
                        end: b.reader(),
                    }),
                decreases count - i,
            {
                proof {
                    if !(decode_children(s, start, HASH_LEN as int, (i + 1) as nat) is Parsed) {
                        lemma_failure_sticks(s, start, HASH_LEN as int, (i + 1) as nat, count as nat);
                    }
                    assert(b.filled() == s);
                }
                match Self::parse_checked(b) {
                    Some(Ok(c)) => {
                        proof {
                            assert(children@.push(c).drop_last() =~= children@);
                            assert(views(children@.push(c)) == views(children@).push(c@));
                        }
                        children.push(c);
                    },
                    Some(Err(e)) => {
                        return Some(Err(e));
                    },
                    None => {
                        return None;
                    },
                }
                i += 1;
            }
            Some(Ok(Node::Inner { children }))
        } else if tag == TAG_LEAF {
            if b.remaining() < 52 {
                None
            } else {
                Some(Self::parse_leaf(b))
            }
        } else if tag == TAG_HASHED {
            if b.remaining() < HASH_LEN {
                None
            } else {
                Some(Self::parse_hash(b))
            }
        } else {
            Some(Err(DecodeError::UnknownTag { tag }))
        }
    }

    /// Decodes the payload of a branch.
    fn parse_inner(b: &mut BufView) -> (r: Result<Node<HASH_LEN>, DecodeError>)
        requires
            old(b).inv(),
            !(decode_inner(old(b).filled(), old(b).reader(), HASH_LEN as int) is Short),
        ensures
            final(b).inv(),
            final(b).buffer() == old(b).buffer(),
            final(b).writer() == old(b).writer(),
            old(b).reader() <= final(b).reader(),
            parse_outcome(
                decode_inner(old(b).filled(), old(b).reader(), HASH_LEN as int),
                r,
                final(b).reader(),
            ),
        decreases old(b).remaining_len(),
    {
        let ghost s = b.filled();
        let ghost start = b.reader() + 8;
        assert(b.field(b.reader(), 8) =~= s.subrange(b.reader(), b.reader() + 8));
        let count = b.read_u64_le();
        let mut children: Vec<Node<HASH_LEN>> = Vec::new();
        let mut i: u64 = 0;
        while i < count
            invariant
                i <= count,
                b.inv(),
                b.buffer() == old(b).buffer(),
                b.writer() == old(b).writer(),
                s == old(b).filled(),
                start == old(b).reader() + 8,
                start <= b.reader(),
                decode_inner(s, old(b).reader(), HASH_LEN as int) == decode_children(
                    s,
                    start,
                    HASH_LEN as int,
                    count as nat,
                ),
                !(decode_children(s, start, HASH_LEN as int, count as nat) is Short),
                decode_children(s, start, HASH_LEN as int, i as nat) == (Decoded::Parsed {
                    tree: Tree::Inner { children: views(children@) },
                    end: b.reader(),
                }),
            decreases count - i,
        {
            proof {
                if !(decode_children(s, start, HASH_LEN as int, (i + 1) as nat) is Parsed) {
                    lemma_failure_sticks(s, start, HASH_LEN as int, (i + 1) as nat, count as nat);
                }
                assert(b.filled() == s);
            }
            match Self::parse(b) {
                Ok(c) => {
                    proof {
                        assert(children@.push(c).drop_last() =~= children@);
                        assert(views(children@.push(c)) == views(children@).push(c@));
                    }
                    children.push(c);
                },
                Err(e) => {
                    return Err(e);
                },
            }
            i += 1;
        }
        Ok(Node::Inner { children })
    }

    /// Decodes the payload of a key/value pair.
    fn parse_leaf(b: &mut BufView) -> (r: Result<Node<HASH_LEN>, DecodeError>)
        requires
            old(b).inv(),
            !(decode_leaf(old(b).filled(), old(b).reader()) is Short),
        ensures
            final(b).inv(),
            final(b).buffer() == old(b).buffer(),
            final(b).writer() == old(b).writer(),
            old(b).reader() <= final(b).reader(),
            parse_outcome(decode_leaf(old(b).filled(), old(b).reader()), r, final(b).reader()),
    {
        let mut key: EAddress = [0u8; 20];
        b.read_bytes(&mut key);
        let mut value: EValue = [0u8; 32];
        b.read_bytes(&mut value);
        proof {
            let s = old(b).filled();
            let pos = old(b).reader();
            assert(key@ =~= s.subrange(pos, pos + 20));
            assert(value@ =~= s.subrange(pos + 20, pos + 52));
        }
        Ok(Node::Leaf { key, value })
    }

    /// Decodes the payload of a pruned subtree.
    fn parse_hash(b: &mut BufView) -> (r: Result<Node<HASH_LEN>, DecodeError>)
        requires
            old(b).inv(),
            !(decode_hash(old(b).filled(), old(b).reader(), HASH_LEN as int) is Short),
        ensures
            final(b).inv(),
            final(b).buffer() == old(b).buffer(),
            final(b).writer() == old(b).writer(),
            old(b).reader() <= final(b).reader(),
            parse_outcome(
                decode_hash(old(b).filled(), old(b).reader(), HASH_LEN as int),
                r,
                final(b).reader(),
            ),
    {
        let mut hash: [u8; HASH_LEN] = [0u8; HASH_LEN];
        b.read_bytes(&mut hash);
        proof {
            let s = old(b).filled();
            let pos = old(b).reader();
            assert(hash@ =~= s.subrange(pos, pos + HASH_LEN));
        }
        Ok(Node::HashedSubTree { hash })
    }
}

} // verus!
