use merkle_frontier::domain;
use merkle_frontier::frontier::Frontier;
use merkle_frontier::hash::Node;

use incrementalmerkletree::Hashable;
use incrementalmerkletree::Level;
use orchard::tree::MerkleHashOrchard;

fn node(k: u8) -> Node {
    let mut bytes = vec![0u8; 32];
    bytes[0] = k;
    Node::from_bytes(&bytes, 0).expect("small integers are canonical encodings")
}

fn combine(level: u8, a: &Node, b: &Node) -> Node {
    merkle_frontier::hash::combine_nodes(level, a, b)
}

#[test]
fn empty_leaf_is_two() {
    let mut expected = [0u8; 32];
    expected[0] = 2;
    assert_eq!(merkle_frontier::hash::empty_leaf().to_bytes(), expected);
}

#[test]
fn node_from_bytes_validates() {
    let bad = vec![0xFFu8; 32];
    assert!(Node::from_bytes(&bad, 0).is_none());
    let mut good = vec![0u8; 32];
    good[0] = 7;
    let n = Node::from_bytes(&good, 0).unwrap();
    assert_eq!(n.to_bytes().to_vec(), good);
}

#[test]
fn empty_root_matches_root_of_empty() {
    let f = domain::new_orchard();
    assert_eq!(domain::orchard_empty_root(), f.root().to_bytes());
}

#[test]
fn empty_root_matches_orchard_table() {
    let expected = MerkleHashOrchard::empty_root(Level::from(32u8)).to_bytes();
    assert_eq!(domain::orchard_empty_root(), expected);
}

#[test]
fn root_matches_incrementalmerkletree() {
    let mut ours = Frontier::empty(32);
    let mut theirs = incrementalmerkletree::frontier::Frontier::<MerkleHashOrchard, 32>::empty();
    for k in 1u8..=9 {
        let n = node(k);
        assert!(ours.append(&n));
        let h = MerkleHashOrchard::from_bytes(&n.to_bytes()).unwrap();
        assert!(theirs.append(h));
        assert_eq!(ours.root().to_bytes(), theirs.root().to_bytes());
    }
}

#[test]
fn carry_depth2_full_tree() {
    let (c0, c1, c2, c3) = (node(11), node(12), node(13), node(14));
    let mut f = Frontier::empty(2);
    for c in [&c0, &c1, &c2, &c3] {
        assert!(f.append(c));
    }
    let expected = combine(1, &combine(0, &c0, &c1), &combine(0, &c2, &c3));
    assert_eq!(f.root().to_bytes(), expected.to_bytes());
}

#[test]
fn carry_depth2_padded() {
    let (c0, c1, c2) = (node(11), node(12), node(13));
    let e0 = merkle_frontier::hash::empty_leaf();
    let e1 = merkle_frontier::hash::empty_root_at(1);

    let mut two = Frontier::empty(2);
    assert!(two.append(&c0));
    assert!(two.append(&c1));
    let expected_two = combine(1, &combine(0, &c0, &c1), &e1);
    assert_eq!(two.root().to_bytes(), expected_two.to_bytes());

    let mut three = Frontier::empty(2);
    for c in [&c0, &c1, &c2] {
        assert!(three.append(c));
    }
    let expected_three = combine(1, &combine(0, &c0, &c1), &combine(0, &c2, &e0));
    assert_eq!(three.root().to_bytes(), expected_three.to_bytes());
}

#[test]
fn size_counts_appends() {
    let mut f = Frontier::empty(4);
    assert_eq!(f.size(), 0);
    assert_eq!(f.position(), None);
    for k in 1u8..=5 {
        assert!(f.append(&node(k)));
        assert_eq!(f.size(), k as u64);
        assert_eq!(f.position(), Some(k as u64 - 1));
    }
}

#[test]
fn capacity_boundary() {
    let mut f = Frontier::empty(2);
    for k in 1u8..=4 {
        assert!(f.append(&node(k)));
    }
    let root_before = f.root().to_bytes();
    assert!(!f.append(&node(5)));
    assert_eq!(f.size(), 4);
    assert_eq!(f.root().to_bytes(), root_before);
}

#[test]
fn bundle_atomicity() {
    let mut f = Frontier::empty(2);
    for k in 1u8..=3 {
        assert!(f.append(&node(k)));
    }
    assert_eq!(f.size(), 3);
    let root_before = f.root().to_bytes();
    let bundle = vec![node(4), node(5)];
    assert!(!f.append_bundle(&bundle));
    assert_eq!(f.size(), 3);
    assert_eq!(f.root().to_bytes(), root_before);
    let fits = vec![node(4)];
    assert!(f.append_bundle(&fits));
    assert_eq!(f.size(), 4);
}

#[test]
fn bundle_empty_is_noop_success() {
    let mut f = Frontier::empty(2);
    let none: Vec<Node> = Vec::new();
    assert!(f.append_bundle(&none));
    assert_eq!(f.size(), 0);
}

#[test]
fn clone_is_independent() {
    let mut f = domain::new_orchard();
    assert!(f.append(&node(1)));
    let copy = f.clone();
    let root_before = copy.root().to_bytes();
    assert!(f.append(&node(3)));
    assert_eq!(copy.root().to_bytes(), root_before);
    assert_ne!(f.root().to_bytes(), root_before);
    assert_eq!(copy.size(), 1);
    assert_eq!(f.size(), 2);
}

#[test]
fn root_determinism_across_build_paths() {
    let mut a = domain::new_orchard();
    let mut b = domain::new_orchard();
    for k in 1u8..=5 {
        assert!(a.append(&node(k)));
        let c = b.clone();
        b = c;
        assert!(b.append(&node(k)));
    }
    assert_eq!(a.root().to_bytes(), b.root().to_bytes());
}

#[test]
fn dynamic_memory_usage_tracks_ommers() {
    let mut f = domain::new_orchard();
    let empty_usage = f.dynamic_memory_usage();
    assert!(f.append(&node(1)));
    let one = f.dynamic_memory_usage();
    assert!(one > empty_usage);
    assert!(f.append(&node(2)));
    let two = f.dynamic_memory_usage();
    assert!(two > one);
}
