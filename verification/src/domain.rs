//! The Orchard pool binding: the fixed full depth, the domain's empty root,
//! and frontier construction and parsing at that depth.

use vstd::prelude::*;
use crate::frontier::Frontier;
use crate::frontier::FrontierModel;
use crate::frontier::empty_model;
use crate::frontier::root_spec;
use crate::hash::empty_hash;
use crate::codec::ParseError;
use crate::codec::parse_v1_spec;

verus! {

/// The depth of the Orchard note commitment tree.
pub const MERKLE_DEPTH: u8 = 32;

/// The root of an empty Orchard note commitment tree, from the domain's
/// precomputed empty-subtree table; no frontier value is needed.
pub fn orchard_empty_root() -> (r: [u8; 32])
    ensures
        r@ == empty_hash(MERKLE_DEPTH as nat),
{
    crate::hash::empty_root_at(MERKLE_DEPTH).to_bytes()
}

/// A new, empty Orchard frontier at the domain depth.
pub fn new_orchard() -> (r: Frontier)
    ensures
        r@ == empty_model(MERKLE_DEPTH as nat),
{
    Frontier::empty(MERKLE_DEPTH)
}

/// Parses an Orchard frontier from the versioned encoding.
pub fn parse_orchard(bytes: &Vec<u8>) -> (r: Result<(Frontier, usize), ParseError>)
    ensures
        match r {
            Ok((f, used)) => parse_v1_spec(bytes@, MERKLE_DEPTH as nat) == Ok::<
                (FrontierModel, int),
                ParseError,
            >((f@, used as int)) && f@.wf(),
            Err(e) => parse_v1_spec(bytes@, MERKLE_DEPTH as nat) == Err::<
                (FrontierModel, int),
                ParseError,
            >(e),
        },
{
    Frontier::parse(bytes, MERKLE_DEPTH)
}

/// The domain's empty root is the root of a frontier with nothing appended:
/// for every depth, the root of the empty frontier is by definition the
/// full-depth empty-subtree hash, the value the domain table holds.
pub proof fn lemma_empty_root_matches(depth: nat)
    ensures
        root_spec(empty_model(depth)) == empty_hash(depth),
{
}

} // verus!
