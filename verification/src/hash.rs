//! Orchard node hashes as the frontier sees them: opaque 32-byte canonical
//! encodings, combined through the `MerkleCRH^Orchard` hash of the `orchard`
//! crate. The hash itself is not re-implemented here; the wrappers below name
//! its results and are the only trusted boundary of this module.

use vstd::prelude::*;

verus! {

broadcast use vstd::array::group_array_axioms;

/// The byte encoding of the hash that `MerkleCRH^Orchard` assigns to the pair
/// `(a, b)` of level-`level` subtree roots. The hash is computed by the
/// `orchard` crate; nothing but the wrappers below says anything about this
/// name, and no contract states its value on given bytes.
pub uninterp spec fn combine_of(level: nat, a: Seq<u8>, b: Seq<u8>) -> Seq<u8>;

/// Whether 32 bytes are the canonical little-endian encoding of a Pallas base
/// field element, i.e. whether `MerkleHashOrchard::from_bytes` accepts them.
pub uninterp spec fn is_canonical(s: Seq<u8>) -> bool;

/// The canonical encoding of the uncommitted (empty) Orchard leaf: the base
/// field element 2, in little-endian bytes.
pub open spec fn empty_leaf_bytes() -> Seq<u8> {
    seq![2u8] + Seq::new(31, |i: int| 0u8)
}

/// The root hash of a perfectly empty subtree at the given level:
/// `empty_hash(0)` is the uncommitted leaf, and each further level combines
/// the previous one with itself.
pub open spec fn empty_hash(level: nat) -> Seq<u8>
    decreases level,
{
    if level == 0 {
        empty_leaf_bytes()
    } else {
        combine_of((level - 1) as nat, empty_hash((level - 1) as nat), empty_hash((level - 1) as nat))
    }
}

/// A node of the Orchard note commitment tree: the canonical 32-byte encoding
/// of a Pallas base field element.
#[derive(Clone, Copy)]
pub struct Node {
    bytes: [u8; 32],
}

impl View for Node {
    type V = Seq<u8>;

    closed spec fn view(&self) -> Seq<u8> {
        self.bytes@
    }
}

impl Node {
    #[verifier::type_invariant]
    pub closed spec fn canonical_encoding(self) -> bool {
        is_canonical(self.bytes@)
    }

    /// What the type invariant of a node means in terms of its view: a node is
    /// a canonical 32-byte encoding.
    pub proof fn lemma_valid(n: Node)
        ensures
            n.canonical_encoding() <==> is_canonical(n@),
            n@.len() == 32,
    {
    }

    /// The canonical 32-byte encoding of this node.
    pub fn to_bytes(&self) -> (r: [u8; 32])
        ensures
            r@ == self@,
    {
        self.bytes
    }

    /// One byte of the canonical encoding.
    pub fn byte_at(&self, i: usize) -> (r: u8)
        requires
            i < 32,
        ensures
            r == self@[i as int],
    {
        self.bytes[i]
    }

    /// Reads a node from 32 bytes of `bytes` starting at `start`; `None` iff
    /// those bytes are not a canonical encoding.
    pub fn from_bytes(bytes: &Vec<u8>, start: usize) -> (r: Option<Node>)
        requires
            start + 32 <= bytes.len(),
        ensures
            match r {
                Some(n) => n@ == bytes@.subrange(start as int, start as int + 32),
                None => !is_canonical(bytes@.subrange(start as int, start as int + 32)),
            },
    {
        node_from_bytes(bytes, start)
    }
}

/// Relies on `orchard::tree::MerkleHashOrchard::from_bytes` (backed by
/// `pallas::Base::from_repr`): it accepts exactly the canonical little-endian
/// encodings of base field elements, and `to_bytes` inverts it.
#[verifier::external_body]
fn node_from_bytes(bytes: &Vec<u8>, start: usize) -> (r: Option<Node>)
    requires
        start + 32 <= bytes.len(),
    ensures
        match r {
            Some(n) => n@ == bytes@.subrange(start as int, start as int + 32) && is_canonical(n@),
            None => !is_canonical(bytes@.subrange(start as int, start as int + 32)),
        },
{
    let arr: [u8; 32] = bytes[start..start + 32].try_into().unwrap();
    let parsed: Option<orchard::tree::MerkleHashOrchard> =
        orchard::tree::MerkleHashOrchard::from_bytes(&arr).into();
    parsed.map(|_| Node { bytes: arr })
}

/// Relies on `orchard::tree::MerkleHashOrchard::combine`, the
/// `MerkleCRH^Orchard` node hash, evaluated at `level`; `combine_of` names its
/// result, which depends on the level and the two child encodings alone. The
/// result is a base field element, so its encoding is canonical.
#[verifier::external_body]
fn combine_raw(level: u8, a: &Node, b: &Node) -> (r: Node)
    requires
        is_canonical(a@),
        is_canonical(b@),
    ensures
        r@ == combine_of(level as nat, a@, b@),
        is_canonical(r@),
{
    let ah = orchard::tree::MerkleHashOrchard::from_bytes(&a.bytes).unwrap();
    let bh = orchard::tree::MerkleHashOrchard::from_bytes(&b.bytes).unwrap();
    let c = <orchard::tree::MerkleHashOrchard as incrementalmerkletree::Hashable>::combine(
        incrementalmerkletree::Level::from(level), &ah, &bh);
    Node { bytes: c.to_bytes() }
}

/// Combines two level-`level` subtree roots into their parent hash.
pub fn combine_nodes(level: u8, a: &Node, b: &Node) -> (r: Node)
    ensures
        r@ == combine_of(level as nat, a@, b@),
{
    proof {
        use_type_invariant(a);
        use_type_invariant(b);
    }
    combine_raw(level, a, b)
}

/// Relies on `Hashable::empty_leaf` for `MerkleHashOrchard`: the uncommitted
/// leaf is the base field element 2, whose canonical encoding is
/// little-endian, and which is trivially canonical.
#[verifier::external_body]
fn empty_leaf_raw() -> (r: Node)
    ensures
        r@ == empty_leaf_bytes(),
        is_canonical(r@),
{
    let h = <orchard::tree::MerkleHashOrchard as incrementalmerkletree::Hashable>::empty_leaf();
    Node { bytes: h.to_bytes() }
}

/// The uncommitted (empty) Orchard leaf.
pub fn empty_leaf() -> (r: Node)
    ensures
        r@ == empty_leaf_bytes(),
{
    empty_leaf_raw()
}

/// Relies on `MerkleHashOrchard::empty_root` and the `EMPTY_ROOTS` table of
/// the `orchard` crate: the entry at `level` is the `level`-fold `combine` of
/// the uncommitted leaf with itself, one combine per level, which is what
/// `empty_hash` unfolds to. The table holds levels up to 32.
#[verifier::external_body]
fn empty_root_raw(level: u8) -> (r: Node)
    requires
        level <= 32,
    ensures
        r@ == empty_hash(level as nat),
        is_canonical(r@),
{
    let h = <orchard::tree::MerkleHashOrchard as incrementalmerkletree::Hashable>::empty_root(
        incrementalmerkletree::Level::from(level));
    Node { bytes: h.to_bytes() }
}

/// The root of a perfectly empty subtree at `level`, from the domain's
/// precomputed table.
pub fn empty_root_at(level: u8) -> (r: Node)
    requires
        level <= 32,
    ensures
        r@ == empty_hash(level as nat),
{
    empty_root_raw(level)
}

} // verus!
