use merkle_frontier::codec::ParseError;
use merkle_frontier::domain;
use merkle_frontier::frontier::Frontier;
use merkle_frontier::hash::Node;

use incrementalmerkletree::frontier::CommitmentTree;
use orchard::tree::MerkleHashOrchard;

fn node(k: u8) -> Node {
    let mut bytes = vec![0u8; 32];
    bytes[0] = k;
    Node::from_bytes(&bytes, 0).expect("small integers are canonical encodings")
}

fn build(depth: u8, count: u8) -> Frontier {
    let mut f = Frontier::empty(depth);
    for k in 1..=count {
        assert!(f.append(&node(k)));
    }
    f
}

#[test]
fn serialize_empty_is_one_zero_byte() {
    let f = domain::new_orchard();
    assert_eq!(f.serialize(), vec![0u8]);
}

#[test]
fn serialize_one_leaf_layout() {
    let mut f = domain::new_orchard();
    let c = node(9);
    assert!(f.append(&c));
    let mut expected = vec![1u8, 0u8];
    expected.extend_from_slice(&c.to_bytes());
    expected.push(0);
    expected.push(0);
    assert_eq!(f.serialize(), expected);
}

#[test]
fn serialize_two_leaves_layout() {
    let mut f = domain::new_orchard();
    let (c0, c1) = (node(9), node(10));
    assert!(f.append(&c0));
    assert!(f.append(&c1));
    let mut expected = vec![1u8, 1u8];
    expected.extend_from_slice(&c0.to_bytes());
    expected.push(1);
    expected.extend_from_slice(&c1.to_bytes());
    expected.push(0);
    assert_eq!(f.serialize(), expected);
}

#[test]
fn round_trip_various_sizes() {
    for count in 0u8..=9 {
        let f = build(32, count);
        let bytes = f.serialize();
        let (parsed, used) = domain::parse_orchard(&bytes).expect("round trip parses");
        assert_eq!(used, bytes.len());
        assert_eq!(parsed.size(), f.size());
        assert_eq!(parsed.root().to_bytes(), f.root().to_bytes());
        assert_eq!(parsed.serialize(), bytes);
    }
}

#[test]
fn parse_ignores_trailing_bytes() {
    let f = build(32, 3);
    let mut bytes = f.serialize();
    let len = bytes.len();
    bytes.push(0xAB);
    let (parsed, used) = domain::parse_orchard(&bytes).unwrap();
    assert_eq!(used, len);
    assert_eq!(parsed.root().to_bytes(), f.root().to_bytes());
}

#[test]
fn parse_empty_input_is_truncated() {
    assert!(matches!(domain::parse_orchard(&Vec::new()), Err(ParseError::Truncated)));
}

#[test]
fn parse_bad_marker() {
    assert!(matches!(domain::parse_orchard(&vec![2u8]), Err(ParseError::BadMarker)));
}

#[test]
fn parse_truncated_node() {
    let mut bytes = vec![1u8, 0u8];
    bytes.extend_from_slice(&[5u8; 12]);
    assert!(matches!(domain::parse_orchard(&bytes), Err(ParseError::Truncated)));
}

#[test]
fn parse_non_canonical_size() {
    let bytes = vec![1u8, 253u8, 10u8, 0u8];
    assert!(matches!(domain::parse_orchard(&bytes), Err(ParseError::NonCanonicalSize)));
}

#[test]
fn parse_invalid_node() {
    let mut bytes = vec![1u8, 0u8];
    bytes.extend_from_slice(&[0xFFu8; 32]);
    bytes.push(0);
    bytes.push(0);
    assert!(matches!(domain::parse_orchard(&bytes), Err(ParseError::InvalidNode)));
}

#[test]
fn parse_position_mismatch() {
    // Position 1 declares one set bit, but no ommers follow.
    let mut bytes = vec![1u8, 1u8];
    bytes.extend_from_slice(&node(3).to_bytes());
    bytes.push(0);
    bytes.push(0);
    assert!(matches!(domain::parse_orchard(&bytes), Err(ParseError::PositionMismatch)));
}

#[test]
fn parse_depth_exceeded() {
    // Position 2^32 needs a tree deeper than 32; its single set bit is
    // matched by one ommer so the position check itself is reached.
    let mut bytes = vec![1u8, 255u8];
    bytes.extend_from_slice(&[0, 0, 0, 0, 1, 0, 0, 0]);
    bytes.extend_from_slice(&node(3).to_bytes());
    bytes.push(0);
    bytes.push(1);
    bytes.extend_from_slice(&node(4).to_bytes());
    assert!(matches!(domain::parse_orchard(&bytes), Err(ParseError::DepthExceeded)));
}

#[test]
fn legacy_matches_commitment_tree_from_frontier() {
    for count in 0u8..=9 {
        let ours = build(32, count);
        let mut theirs =
            incrementalmerkletree::frontier::Frontier::<MerkleHashOrchard, 32>::empty();
        for k in 1..=count {
            let h = MerkleHashOrchard::from_bytes(&node(k).to_bytes()).unwrap();
            assert!(theirs.append(h));
        }
        let ct = CommitmentTree::<MerkleHashOrchard, 32>::from_frontier(&theirs);
        let mut expected: Vec<u8> = Vec::new();
        match ct.left() {
            Some(h) => {
                expected.push(1);
                expected.extend_from_slice(&h.to_bytes());
            },
            None => expected.push(0),
        }
        match ct.right() {
            Some(h) => {
                expected.push(1);
                expected.extend_from_slice(&h.to_bytes());
            },
            None => expected.push(0),
        }
        expected.push(ct.parents().len() as u8);
        for p in ct.parents() {
            match p {
                Some(h) => {
                    expected.push(1);
                    expected.extend_from_slice(&h.to_bytes());
                },
                None => expected.push(0),
            }
        }
        assert_eq!(ours.serialize_legacy(), expected, "count {}", count);
    }
}

#[test]
fn legacy_empty_layout() {
    let f = domain::new_orchard();
    assert_eq!(f.serialize_legacy(), vec![0u8, 0u8, 0u8]);
}
