use state_tree::buf_view::BufView;
use state_tree::sample::{a, eword, make_inner};
use state_tree::{DecodeError, Node};

fn two_leaves() -> Node<32> {
    Node::Inner {
        children: vec![
            Node::Leaf { key: [0x11; 20], value: [0x22; 32] },
            Node::Leaf { key: [0x33; 20], value: [0x44; 32] },
        ],
    }
}

fn two_leaves_bytes() -> Vec<u8> {
    let mut bytes = vec![0x01, 0x02, 0, 0, 0, 0, 0, 0, 0, 0x02];
    bytes.extend_from_slice(&[0x11; 20]);
    bytes.extend_from_slice(&[0x22; 32]);
    bytes.push(0x02);
    bytes.extend_from_slice(&[0x33; 20]);
    bytes.extend_from_slice(&[0x44; 32]);
    bytes
}

fn nested() -> Node<32> {
    Node::Inner {
        children: vec![
            Node::Inner { children: vec![] },
            Node::HashedSubTree { hash: [0xab; 32] },
            Node::Inner {
                children: vec![
                    Node::Leaf { key: [1; 20], value: [2; 32] },
                    Node::Inner { children: vec![Node::HashedSubTree { hash: [3; 32] }] },
                ],
            },
            Node::Leaf { key: [4; 20], value: [5; 32] },
        ],
    }
}

#[test]
fn serialize_two_leaves_is_bit_exact() {
    assert_eq!(two_leaves().serialize(), two_leaves_bytes());
}

#[test]
fn parse_two_leaves_rebuilds_the_tree() {
    let bytes = two_leaves_bytes();
    let mut view = BufView::wrap(&bytes);
    let parsed = Node::<32>::parse(&mut view);
    assert_eq!(parsed, Ok(two_leaves()));
    assert_eq!(view.remaining(), 0);
    assert_eq!(view.reader_index(), 115);
}

#[test]
fn serialize_each_kind() {
    let leaf: Node<32> = Node::Leaf { key: [7; 20], value: [9; 32] };
    let mut want = vec![2u8];
    want.extend_from_slice(&[7; 20]);
    want.extend_from_slice(&[9; 32]);
    assert_eq!(leaf.serialize(), want);

    let hashed: Node<32> = Node::HashedSubTree { hash: [0xee; 32] };
    let mut want = vec![3u8];
    want.extend_from_slice(&[0xee; 32]);
    assert_eq!(hashed.serialize(), want);

    let empty: Node<32> = Node::Inner { children: vec![] };
    assert_eq!(empty.serialize(), vec![1, 0, 0, 0, 0, 0, 0, 0, 0]);
}

#[test]
fn serialize_count_is_little_endian() {
    let mut children: Vec<Node<32>> = Vec::new();
    for _ in 0..258 {
        children.push(Node::Inner { children: vec![] });
    }
    let bytes = Node::Inner { children }.serialize();
    assert_eq!(&bytes[..9], &[1, 0x02, 0x01, 0, 0, 0, 0, 0, 0]);
    assert_eq!(bytes.len(), 9 + 258 * 9);
}

#[test]
fn round_trip_nested_tree() {
    let tree = nested();
    let bytes = tree.serialize();
    let mut view = BufView::wrap(&bytes);
    let parsed = Node::<32>::parse(&mut view).unwrap();
    assert_eq!(parsed, tree);
    assert_eq!(view.remaining(), 0);
    assert_eq!(parsed.serialize(), bytes);
}

#[test]
fn round_trip_other_hash_width() {
    let tree: Node<4> = Node::Inner {
        children: vec![
            Node::HashedSubTree { hash: [1, 2, 3, 4] },
            Node::Leaf { key: [8; 20], value: [9; 32] },
        ],
    };
    let bytes = tree.serialize();
    assert_eq!(&bytes[..14], &[1, 2, 0, 0, 0, 0, 0, 0, 0, 3, 1, 2, 3, 4]);
    let mut view = BufView::wrap(&bytes);
    assert_eq!(Node::<4>::parse(&mut view), Ok(tree));
    assert_eq!(view.remaining(), 0);
}

#[test]
fn serialize_is_deterministic() {
    assert_eq!(nested().serialize(), nested().serialize());
    assert_eq!(two_leaves().serialize(), two_leaves().serialize());
}

#[test]
fn parse_leaves_what_follows_unread() {
    let mut bytes = two_leaves_bytes();
    bytes.extend_from_slice(&[0xde, 0xad]);
    let mut view = BufView::wrap(&bytes);
    assert_eq!(Node::<32>::parse(&mut view), Ok(two_leaves()));
    assert_eq!(view.remaining(), 2);
}

#[test]
fn parse_starts_at_the_reader_index() {
    let mut bytes = vec![0xff, 0xff];
    bytes.extend_from_slice(&two_leaves_bytes());
    let mut view = BufView::wrap_with(&bytes, 2, bytes.len());
    assert_eq!(Node::<32>::parse(&mut view), Ok(two_leaves()));
    assert_eq!(view.reader_index(), bytes.len());
}

#[test]
fn parse_rejects_unknown_first_tag() {
    for tag in [0u8, 4, 5, 0x7f, 0xff] {
        let bytes = [tag, 1, 2, 3];
        let mut view = BufView::wrap(&bytes);
        assert_eq!(Node::<32>::parse(&mut view), Err(DecodeError::UnknownTag { tag }));
        assert_eq!(view.reader_index(), 1);
        assert_eq!(view.remaining(), 3);
    }
}

#[test]
fn parse_rejects_unknown_tag_of_a_child() {
    let mut bytes = vec![1u8, 3, 0, 0, 0, 0, 0, 0, 0, 2];
    bytes.extend_from_slice(&[0x11; 52]);
    bytes.push(9);
    bytes.extend_from_slice(&[3; 40]);
    let mut view = BufView::wrap(&bytes);
    assert_eq!(Node::<32>::parse(&mut view), Err(DecodeError::UnknownTag { tag: 9 }));
    assert_eq!(view.reader_index(), 63);
}

#[test]
fn error_message_names_the_tag() {
    assert_eq!(DecodeError::UnknownTag { tag: 7 }.message(), b"unknown node type: 7".to_vec());
    assert_eq!(DecodeError::UnknownTag { tag: 40 }.message(), b"unknown node type: 40".to_vec());
    assert_eq!(DecodeError::UnknownTag { tag: 255 }.message(), b"unknown node type: 255".to_vec());
    assert_eq!(DecodeError::UnknownTag { tag: 0 }.message(), b"unknown node type: 0".to_vec());
}

#[test]
fn content_streams_keys_values_and_hashes_in_order() {
    let mut want = Vec::new();
    want.extend_from_slice(&[0xab; 32]);
    want.extend_from_slice(&[1; 20]);
    want.extend_from_slice(&[2; 32]);
    want.extend_from_slice(&[3; 32]);
    want.extend_from_slice(&[4; 20]);
    want.extend_from_slice(&[5; 32]);
    assert_eq!(nested().content(), want);
    let empty: Node<32> = Node::Inner { children: vec![] };
    assert_eq!(empty.content(), Vec::<u8>::new());
}

#[test]
fn hash_is_sha256_of_the_content() {
    let want: [u8; 32] = [
        0x24, 0xe3, 0x71, 0xe3, 0x31, 0x09, 0x2c, 0x31, 0xf1, 0x29, 0x8e, 0x2f, 0xee, 0x98, 0x44,
        0x9d, 0xdd, 0x9c, 0x6f, 0xbf, 0x70, 0xfd, 0x3b, 0x98, 0x65, 0x90, 0x91, 0x02, 0xb2, 0xba,
        0x25, 0xa9,
    ];
    assert_eq!(two_leaves().hash(), want.to_vec());
}

#[test]
fn hash_of_an_empty_branch_is_sha256_of_nothing() {
    let want: [u8; 32] = [
        0xe3, 0xb0, 0xc4, 0x42, 0x98, 0xfc, 0x1c, 0x14, 0x9a, 0xfb, 0xf4, 0xc8, 0x99, 0x6f, 0xb9,
        0x24, 0x27, 0xae, 0x41, 0xe4, 0x64, 0x9b, 0x93, 0x4c, 0xa4, 0x95, 0x99, 0x1b, 0x78, 0x52,
        0xb8, 0x55,
    ];
    let empty: Node<32> = Node::Inner { children: vec![] };
    assert_eq!(empty.hash(), want.to_vec());
}

#[test]
fn hash_of_a_pruned_subtree_digests_the_stored_hash() {
    let want: [u8; 32] = [
        0x9a, 0x2d, 0xb2, 0xe2, 0x3f, 0x15, 0x04, 0xcd, 0x05, 0x66, 0x06, 0x55, 0x3a, 0xc0, 0x49,
        0xc5, 0xe7, 0x18, 0xe8, 0xf9, 0xce, 0x92, 0x33, 0x87, 0x6d, 0xf1, 0xa7, 0xa1, 0x82, 0x1a,
        0xf8, 0x85,
    ];
    let hashed: Node<32> = Node::HashedSubTree { hash: [0xab; 32] };
    assert_eq!(hashed.hash(), want.to_vec());
}

#[test]
fn hash_is_deterministic_and_sensitive_to_one_bit() {
    let base = two_leaves().hash();
    assert_eq!(base.len(), 32);
    assert_eq!(base, two_leaves().hash());

    let mut first = [0x22u8; 32];
    first[0] ^= 1;
    let changed_first: Node<32> = Node::Inner {
        children: vec![
            Node::Leaf { key: [0x11; 20], value: first },
            Node::Leaf { key: [0x33; 20], value: [0x44; 32] },
        ],
    };
    assert_ne!(changed_first.hash(), base);

    let mut second = [0x44u8; 32];
    second[31] ^= 0x80;
    let changed_second: Node<32> = Node::Inner {
        children: vec![
            Node::Leaf { key: [0x11; 20], value: [0x22; 32] },
            Node::Leaf { key: [0x33; 20], value: second },
        ],
    };
    assert_ne!(changed_second.hash(), base);
}

#[test]
fn hash_ignores_how_leaves_are_grouped() {
    let flat = two_leaves();
    let grouped: Node<32> = Node::Inner {
        children: vec![
            Node::Inner { children: vec![Node::Leaf { key: [0x11; 20], value: [0x22; 32] }] },
            Node::Inner { children: vec![Node::Leaf { key: [0x33; 20], value: [0x44; 32] }] },
        ],
    };
    assert_eq!(flat.hash(), grouped.hash());
    assert_ne!(flat.serialize(), grouped.serialize());
}

#[test]
fn pretty_dumps_one_node_per_line() {
    let tree: Node<32> = Node::Inner {
        children: vec![
            Node::Inner {
                children: vec![Node::Leaf { key: [b'k'; 20], value: [b'v'; 32] }],
            },
            Node::HashedSubTree { hash: [b'h'; 32] },
        ],
    };
    let want = format!(
        "Inner-0\n  Inner-1\n    {} -> {}\n  H := {}\n",
        "k".repeat(20),
        "v".repeat(32),
        "h".repeat(32)
    );
    assert_eq!(tree.pretty(), want.into_bytes());
}

#[test]
fn pretty_writes_depth_in_decimal() {
    let mut tree: Node<32> = Node::Inner { children: vec![] };
    for _ in 0..11 {
        tree = Node::Inner { children: vec![tree] };
    }
    let text = String::from_utf8(tree.pretty()).unwrap();
    let last = text.lines().last().unwrap();
    assert_eq!(last, format!("{}Inner-11", " ".repeat(22)));
    assert_eq!(text.lines().count(), 12);
}

#[test]
fn address_and_word_are_zero_padded() {
    let mut want = [0u8; 20];
    want[0] = b'a';
    want[1] = b'b';
    assert_eq!(a(b"ab"), want);
    assert_eq!(a(&[7; 20]), [7; 20]);
    assert_eq!(a(&[]), [0; 20]);
    let mut word = [0u8; 32];
    word[..3].copy_from_slice(b"xyz");
    assert_eq!(eword(b"xyz"), word);
    assert_eq!(eword(&[9; 32]), [9; 32]);
}

fn is_sample_leaf(node: &Node<32>) -> bool {
    match node {
        Node::Leaf { key, value } => {
            key.iter().all(|b| b.is_ascii_alphanumeric())
                && value.iter().all(|b| b.is_ascii_alphanumeric())
        }
        _ => false,
    }
}

#[test]
fn make_inner_draws_the_asked_number_of_leaves() {
    match make_inner(5) {
        Node::Inner { children } => {
            assert_eq!(children.len(), 5);
            assert!(children.iter().all(is_sample_leaf));
        }
        _ => panic!("a branch was expected"),
    }
    assert_eq!(make_inner(0), Node::Inner { children: vec![] });
}

#[test]
fn random_tree_has_the_asked_shape_and_round_trips() {
    let tree = Node::<32>::random_tree(3, 4);
    match &tree {
        Node::Inner { children } => {
            assert_eq!(children.len(), 3);
            for branch in children {
                match branch {
                    Node::Inner { children } => {
                        assert_eq!(children.len(), 4);
                        assert!(children.iter().all(is_sample_leaf));
                    }
                    _ => panic!("a branch was expected"),
                }
            }
        }
        _ => panic!("a branch was expected"),
    }
    let bytes = tree.serialize();
    assert_eq!(bytes.len(), 9 + 3 * (9 + 4 * 53));
    let mut view = BufView::wrap(&bytes);
    assert_eq!(Node::<32>::parse(&mut view), Ok(tree));
}

#[test]
fn try_parse_decodes_what_parse_decodes() {
    let bytes = nested().serialize();
    let mut view = BufView::wrap(&bytes);
    assert_eq!(Node::<32>::try_parse(&mut view), Some(Ok(nested())));
    assert_eq!(view.remaining(), 0);

    let unknown = [0x2au8, 1, 1];
    let mut view = BufView::wrap(&unknown);
    assert_eq!(
        Node::<32>::try_parse(&mut view),
        Some(Err(DecodeError::UnknownTag { tag: 0x2a }))
    );
    assert_eq!(view.reader_index(), 1);
}

#[test]
fn try_parse_gives_nothing_for_short_input() {
    let whole = two_leaves_bytes();
    for cut in [0usize, 1, 5, 9, 10, 40, 62, 63, 114] {
        let mut view = BufView::wrap_with(&whole, 0, cut);
        assert_eq!(Node::<32>::try_parse(&mut view), None);
        assert_eq!(view.reader_index(), 0);
        assert_eq!(view.writer_index(), cut);
    }
    let mut view = BufView::wrap_with(&whole, 0, 115);
    assert_eq!(Node::<32>::try_parse(&mut view), Some(Ok(two_leaves())));
}

#[test]
fn try_parse_gives_nothing_for_a_count_with_no_children() {
    let bytes = [1u8, 0xff, 0xff, 0xff, 0xff, 0xff, 0xff, 0xff, 0xff];
    let mut view = BufView::wrap(&bytes);
    assert_eq!(Node::<32>::try_parse(&mut view), None);
    assert_eq!(view.reader_index(), 0);

    let short_hash = [3u8, 1, 2, 3];
    let mut view = BufView::wrap(&short_hash);
    assert_eq!(Node::<32>::try_parse(&mut view), None);
    let mut view = BufView::wrap(&short_hash);
    assert_eq!(Node::<3>::try_parse(&mut view), Some(Ok(Node::HashedSubTree { hash: [1, 2, 3] })));
}
