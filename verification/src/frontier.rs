//! The frontier accumulator: the minimal state — rightmost-path ommers plus
//! the position of the last appended leaf — needed to append commitments one
//! at a time and recompute the root on demand, padding unfilled levels with
//! empty-subtree hashes.

use vstd::prelude::*;
use vstd::arithmetic::power2::pow2;
use vstd::arithmetic::power2::lemma_pow2_pos;
use vstd::arithmetic::power2::lemma_pow2_unfold;
use vstd::arithmetic::power2::lemma2_to64;
use vstd::arithmetic::power2::lemma2_to64_rest;
use vstd::arithmetic::div_mod::lemma_div_denominator;
use vstd::arithmetic::div_mod::lemma_basic_div;
use crate::bits::count_ones;
use crate::bits::lemma_count_ones_bound;
use crate::bits::pow2_u64;
use crate::hash::Node;
use crate::hash::combine_of;
use crate::hash::combine_nodes;
use crate::hash::empty_leaf;
use crate::hash::empty_hash;
use crate::hash::is_canonical;

verus! {

broadcast use vstd::array::group_array_axioms;

/// The mathematical content of a non-empty frontier: the position of the most
/// recently appended leaf, that leaf's hash, and one retained subtree root
/// (ommer) per set bit of the position, in increasing level order.
#[verifier::ext_equal]
pub ghost struct NonEmptyModel {
    pub position: nat,
    pub leaf: Seq<u8>,
    pub ommers: Seq<Seq<u8>>,
}

/// The mathematical content of a frontier: its tree height, and its state if
/// any leaf has been appended.
#[verifier::ext_equal]
pub ghost struct FrontierModel {
    pub depth: nat,
    pub state: Option<NonEmptyModel>,
}

/// The node hashes of a vector, as byte sequences.
pub open spec fn nodes_view(v: Seq<Node>) -> Seq<Seq<u8>> {
    v.map_values(|n: Node| n@)
}

/// Every entry is a canonical 32-byte node encoding.
pub open spec fn nodes_ok(s: Seq<Seq<u8>>) -> bool {
    forall|i: int| 0 <= i < s.len() ==> (#[trigger] s[i]).len() == 32 && is_canonical(s[i])
}

/// The frontier with no leaves.
pub open spec fn empty_model(depth: nat) -> FrontierModel {
    FrontierModel { depth, state: Option::None }
}

impl FrontierModel {
    /// Well-formedness: the depth is supported, the position is within the
    /// tree, there is exactly one ommer per set bit of the position, and every
    /// stored hash is a canonical 32-byte encoding.
    pub open spec fn wf(self) -> bool {
        &&& 1 <= self.depth <= 62
        &&& match self.state {
            Option::None => true,
            Option::Some(s) => {
                &&& s.position < pow2(self.depth)
                &&& s.ommers.len() == count_ones(s.position)
                &&& s.leaf.len() == 32
                &&& is_canonical(s.leaf)
                &&& nodes_ok(s.ommers)
            },
        }
    }
}

/// Number of leaves appended so far.
pub open spec fn size_spec(m: FrontierModel) -> nat {
    match m.state {
        Option::None => 0,
        Option::Some(s) => s.position + 1,
    }
}

/// The binary-counter carry of one append: `q` is the old position shifted
/// down to `level`, `carry` the hash climbing out of the completed subtree,
/// and `oms` the retained ommers from `level` upward. While the current bit of
/// the old position is set, the lowest remaining ommer joins the carry;
/// the first clear bit receives the carry, and all higher ommers survive.
pub open spec fn absorb(q: nat, carry: Seq<u8>, oms: Seq<Seq<u8>>, level: nat) -> Seq<Seq<u8>>
    decreases q,
{
    if q % 2 == 1 {
        absorb(q / 2, combine_of(level, oms[0], carry), oms.subrange(1, oms.len() as int), level + 1)
    } else {
        seq![carry] + oms
    }
}

/// The frontier after appending `leaf`, by the carry rule. (Appending to a
/// full frontier is rejected by the operations; this function is their
/// meaning on the accepted inputs.)
pub open spec fn append_spec(m: FrontierModel, leaf: Seq<u8>) -> FrontierModel {
    match m.state {
        Option::None => FrontierModel {
            depth: m.depth,
            state: Option::Some(NonEmptyModel { position: 0, leaf, ommers: Seq::empty() }),
        },
        Option::Some(s) => FrontierModel {
            depth: m.depth,
            state: Option::Some(NonEmptyModel {
                position: s.position + 1,
                leaf,
                ommers: absorb(s.position, s.leaf, s.ommers, 0),
            }),
        },
    }
}

/// The frontier after appending a whole sequence of leaves, left to right.
pub open spec fn append_all(m: FrontierModel, leaves: Seq<Seq<u8>>) -> FrontierModel
    decreases leaves.len(),
{
    if leaves.len() == 0 {
        m
    } else {
        append_spec(append_all(m, leaves.drop_last()), leaves.last())
    }
}

/// The frontier built by appending `leaves` to an empty tree of height `depth`.
pub open spec fn build_model(depth: nat, leaves: Seq<Seq<u8>>) -> FrontierModel {
    append_all(empty_model(depth), leaves)
}

/// The root of the rightmost path: `cur` is the running hash at `level`, `q`
/// the position shifted down to `level`, and `oms` the ommers not yet used.
/// A set bit pairs the lowest remaining ommer on the left; a clear bit pads
/// with the empty-subtree hash on the right.
pub open spec fn fill_up(q: nat, cur: Seq<u8>, oms: Seq<Seq<u8>>, level: nat, depth: nat) -> Seq<u8>
    decreases depth - level,
{
    if level >= depth {
        cur
    } else if q % 2 == 1 {
        fill_up(q / 2, combine_of(level, oms[0], cur), oms.subrange(1, oms.len() as int), level + 1, depth)
    } else {
        fill_up(q / 2, combine_of(level, cur, empty_hash(level)), oms, level + 1, depth)
    }
}

/// The root of a frontier: the empty-tree root if nothing was appended, else
/// the rightmost path combined with ommers and empty-subtree padding.
pub open spec fn root_spec(m: FrontierModel) -> Seq<u8> {
    match m.state {
        Option::None => empty_hash(m.depth),
        Option::Some(s) => fill_up(s.position, s.leaf, s.ommers, 0, m.depth),
    }
}

/// Absorbing a carry yields exactly one ommer per set bit of the new
/// position: the binary-counter increment.
pub proof fn lemma_absorb_len(q: nat, carry: Seq<u8>, oms: Seq<Seq<u8>>, level: nat)
    requires
        oms.len() == count_ones(q),
    ensures
        absorb(q, carry, oms, level).len() == count_ones(q + 1),
    decreases q,
{
    if q % 2 == 1 {
        lemma_absorb_len(
            q / 2,
            combine_of(level, oms[0], carry),
            oms.subrange(1, oms.len() as int),
            level + 1,
        );
        assert((q + 1) / 2 == q / 2 + 1);
        assert(count_ones(q + 1) == count_ones(q / 2 + 1));
    } else {
        assert((q + 1) / 2 == q / 2);
        assert(count_ones(q + 1) == 1 + count_ones(q));
    }
}

/// The state of a non-empty frontier.
pub struct NonEmpty {
    pub(crate) position: u64,
    pub(crate) leaf: Node,
    pub(crate) ommers: Vec<Node>,
}

/// An incremental Merkle frontier of a tree of height `depth`.
pub struct Frontier {
    pub(crate) depth: u8,
    pub(crate) state: Option<NonEmpty>,
}

impl View for NonEmpty {
    type V = NonEmptyModel;

    open(crate) spec fn view(&self) -> NonEmptyModel {
        NonEmptyModel {
            position: self.position as nat,
            leaf: self.leaf@,
            ommers: nodes_view(self.ommers@),
        }
    }
}

impl View for Frontier {
    type V = FrontierModel;

    open(crate) spec fn view(&self) -> FrontierModel {
        FrontierModel {
            depth: self.depth as nat,
            state: match self.state {
                Option::None => Option::None,
                Option::Some(s) => Option::Some(s@),
            },
        }
    }
}

impl Frontier {
    /// Each frontier value the library hands out has a well-formed model.
    #[verifier::type_invariant]
    pub open spec fn well_formed(self) -> bool {
        self@.wf()
    }

    /// A frontier with no leaves, for a tree of height `depth`.
    pub fn empty(depth: u8) -> (r: Frontier)
        requires
            1 <= depth <= 62,
        ensures
            r@ == empty_model(depth as nat),
    {
        Frontier { depth, state: Option::None }
    }

    /// The tree height this frontier was created with.
    pub fn depth(&self) -> (r: u8)
        ensures
            r as nat == self@.depth,
    {
        self.depth
    }

    /// The position of the most recently appended leaf; `None` iff empty.
    pub fn position(&self) -> (r: Option<u64>)
        ensures
            match self@.state {
                Option::None => r == Option::<u64>::None,
                Option::Some(s) => r == Option::Some(s.position as u64),
            },
    {
        match &self.state {
            Option::None => Option::None,
            Option::Some(s) => Option::Some(s.position),
        }
    }

    /// The number of leaves appended so far.
    pub fn size(&self) -> (r: u64)
        ensures
            r as nat == size_spec(self@),
            self@.wf(),
    {
        proof {
            use_type_invariant(self);
            lemma2_to64_rest();
        }
        match &self.state {
            Option::None => 0,
            Option::Some(s) => {
                proof {
                    if (self@.depth) < 62 {
                        vstd::arithmetic::power2::lemma_pow2_strictly_increases(self@.depth, 62);
                    }
                }
                s.position + 1
            },
        }
    }

    /// Appends a commitment. Returns `false`, leaving the frontier unchanged,
    /// iff the tree already holds `pow2(depth)` leaves; otherwise advances the
    /// position by one and reshapes the ommers by the carry rule.
    pub fn append(&mut self, value: &Node) -> (ok: bool)
        ensures
            ok <==> size_spec(old(self)@) < pow2(old(self)@.depth),
            ok ==> final(self)@ == append_spec(old(self)@, value@),
            !ok ==> final(self)@ == old(self)@,
            size_spec(final(self)@) >= size_spec(old(self)@),
            final(self)@.wf(),
    {
        proof {
            use_type_invariant(&*self);
            use_type_invariant(value);
            crate::hash::Node::lemma_valid(*value);
        }
        let depth = self.depth;
        let new_state: NonEmpty = match &self.state {
            Option::None => {
                proof {
                    lemma_pow2_pos(depth as nat);
                }
                NonEmpty { position: 0, leaf: *value, ommers: Vec::new() }
            },
            Option::Some(s) => {
                let ghost p = s.position as nat;
                let ghost oms0 = nodes_view(s.ommers@);
                let ghost leaf0 = s.leaf@;
                proof {
                    lemma_count_ones_bound(p, depth as nat);
                    lemma2_to64_rest();
                    if (depth as nat) < 62 {
                        vstd::arithmetic::power2::lemma_pow2_strictly_increases(depth as nat, 62);
                    }
                }
                if s.ommers.len() >= depth as usize {
                    return false;
                }
                let mut carry: Node = s.leaf;
                let mut q: u64 = s.position;
                let mut level: u8 = 0;
                let mut idx: usize = 0;
                proof {
                    lemma2_to64();
                    vstd::arithmetic::div_mod::lemma_div_basics(p as int);
                    assert(oms0.subrange(0, oms0.len() as int) =~= oms0);
                }
                while q % 2 == 1
                    invariant
                        idx == level as nat,
                        idx <= s.ommers.len(),
                        s.ommers.len() < depth as usize,
                        depth <= 62,
                        oms0 == nodes_view(s.ommers@),
                        oms0.len() == count_ones(p),
                        q as nat == p / pow2(level as nat),
                        idx + count_ones(q as nat) == count_ones(p),
                        absorb(p, leaf0, oms0, 0) == absorb(
                            q as nat,
                            carry@,
                            oms0.subrange(idx as int, oms0.len() as int),
                            level as nat,
                        ),
                    decreases q,
                {
                    let ghost q_old = q as nat;
                    let ghost rem_old = oms0.subrange(idx as int, oms0.len() as int);
                    assert(count_ones(q_old) >= 1);
                    assert(idx < s.ommers.len());
                    carry = combine_nodes(level, &s.ommers[idx], &carry);
                    proof {
                        assert(rem_old[0] == oms0[idx as int]);
                        assert(rem_old.subrange(1, rem_old.len() as int) =~= oms0.subrange(
                            idx as int + 1,
                            oms0.len() as int,
                        ));
                        lemma_pow2_unfold((level + 1) as nat);
                        lemma_pow2_pos(level as nat);
                        lemma_div_denominator(p as int, pow2(level as nat) as int, 2);
                    }
                    idx = idx + 1;
                    level = level + 1;
                    q = q / 2;
                }
                proof {
                    assert(absorb(q as nat, carry@, oms0.subrange(idx as int, oms0.len() as int), level as nat)
                        == seq![carry@] + oms0.subrange(idx as int, oms0.len() as int));
                    use_type_invariant(&carry);
                }
                let mut new_ommers: Vec<Node> = Vec::new();
                new_ommers.push(carry);
                let mut j: usize = idx;
                while j < s.ommers.len()
                    invariant
                        idx <= j <= s.ommers.len(),
                        new_ommers@ =~= seq![carry] + s.ommers@.subrange(idx as int, j as int),
                    decreases s.ommers.len() - j,
                {
                    let ghost prev = new_ommers@;
                    new_ommers.push(s.ommers[j]);
                    proof {
                        assert(new_ommers@ =~= seq![carry] + s.ommers@.subrange(
                            idx as int,
                            j as int + 1,
                        ));
                    }
                    j = j + 1;
                }
                proof {
                    let ghost target = seq![carry@] + oms0.subrange(idx as int, oms0.len() as int);
                    assert forall|i: int| 0 <= i < nodes_view(new_ommers@).len()
                        implies nodes_view(new_ommers@)[i] == target[i] by {
                        if i == 0 {
                            assert(new_ommers@[0] == carry);
                        } else {
                            assert(new_ommers@[i] == s.ommers@[idx + i - 1]);
                            assert(oms0[idx + i - 1] == s.ommers@[idx + i - 1]@);
                        }
                    }
                    assert(nodes_view(new_ommers@) =~= target);
                    assert(nodes_view(new_ommers@) =~= absorb(p, leaf0, oms0, 0));
                    lemma_absorb_len(p, leaf0, oms0, 0);
                    assert(p != pow2(depth as nat) - 1);
                    assert forall|i: int| 0 <= i < nodes_view(new_ommers@).len()
                        implies (#[trigger] nodes_view(new_ommers@)[i]).len() == 32
                            && is_canonical(nodes_view(new_ommers@)[i]) by {
                        if i > 0 {
                            assert(nodes_view(new_ommers@)[i] == oms0[idx + i - 1]);
                        } else {
                            crate::hash::Node::lemma_valid(carry);
                            assert(nodes_view(new_ommers@)[0] == carry@);
                        }
                    }
                }
                NonEmpty { position: s.position + 1, leaf: *value, ommers: new_ommers }
            },
        };
        *self = Frontier { depth, state: Option::Some(new_state) };
        proof {
            assert(final(self)@ =~= append_spec(old(self)@, value@));
        }
        true
    }

    /// Appends every commitment of `actions`, in order, or none of them: if
    /// the remaining capacity is smaller than the list, the call fails and
    /// the frontier is unchanged.
    pub fn append_bundle(&mut self, actions: &Vec<Node>) -> (ok: bool)
        ensures
            ok <==> size_spec(old(self)@) + actions@.len() <= pow2(old(self)@.depth),
            ok ==> final(self)@ == append_all(old(self)@, nodes_view(actions@)),
            !ok ==> final(self)@ == old(self)@,
            size_spec(final(self)@) >= size_spec(old(self)@),
    {
        proof {
            use_type_invariant(&*self);
        }
        let cap: u64 = pow2_u64(self.depth);
        let size: u64 = self.size();
        if actions.len() as u64 > cap - size {
            return false;
        }
        let ghost m0 = self@;
        let ghost leaves = nodes_view(actions@);
        let mut i: usize = 0;
        while i < actions.len()
            invariant
                i <= actions.len(),
                leaves == nodes_view(actions@),
                self@ == append_all(m0, leaves.take(i as int)),
                size_spec(self@) == size_spec(m0) + i,
                size_spec(m0) + actions@.len() <= pow2(m0.depth),
                self@.depth == m0.depth,
                self@.wf(),
            decreases actions.len() - i,
        {
            let ghost before = self@;
            let ok = self.append(&actions[i]);
            proof {
                assert(ok);
                assert(leaves.take(i as int + 1).drop_last() =~= leaves.take(i as int));
                assert(leaves.take(i as int + 1).last() == leaves[i as int]);
            }
            i = i + 1;
        }
        proof {
            assert(leaves.take(actions@.len() as int) =~= leaves);
        }
        true
    }

    /// The current root: combines the rightmost-path ommers with
    /// empty-subtree hashes bottom-up to `depth`. Pure: repeated calls with no
    /// intervening append return identical values.
    pub fn root(&self) -> (r: Node)
        ensures
            r@ == root_spec(self@),
            self@.wf(),
    {
        proof {
            use_type_invariant(self);
        }
        let depth = self.depth;
        match &self.state {
            Option::None => {
                let mut cur: Node = empty_leaf();
                let mut l: u8 = 0;
                while l < depth
                    invariant
                        l <= depth <= 62,
                        cur@ == empty_hash(l as nat),
                    decreases depth - l,
                {
                    cur = combine_nodes(l, &cur, &cur);
                    l = l + 1;
                }
                cur
            },
            Option::Some(s) => {
                let ghost p = s.position as nat;
                let ghost oms0 = nodes_view(s.ommers@);
                let ghost leaf0 = s.leaf@;
                let mut cur: Node = s.leaf;
                let mut pad: Node = empty_leaf();
                let mut q: u64 = s.position;
                let mut idx: usize = 0;
                let mut l: u8 = 0;
                proof {
                    lemma2_to64();
                    vstd::arithmetic::div_mod::lemma_div_basics(p as int);
                    assert(oms0.subrange(0, oms0.len() as int) =~= oms0);
                }
                while l < depth
                    invariant
                        l <= depth <= 62,
                        idx <= s.ommers.len(),
                        oms0 == nodes_view(s.ommers@),
                        oms0.len() == count_ones(p),
                        p < pow2(depth as nat),
                        pad@ == empty_hash(l as nat),
                        q as nat == p / pow2(l as nat),
                        idx + count_ones(q as nat) == count_ones(p),
                        fill_up(p, leaf0, oms0, 0, depth as nat) == fill_up(
                            q as nat,
                            cur@,
                            oms0.subrange(idx as int, oms0.len() as int),
                            l as nat,
                            depth as nat,
                        ),
                    decreases depth - l,
                {
                    let ghost q_old = q as nat;
                    let ghost rem_old = oms0.subrange(idx as int, oms0.len() as int);
                    if q % 2 == 1 {
                        assert(count_ones(q_old) >= 1);
                        assert(idx < s.ommers.len());
                        cur = combine_nodes(l, &s.ommers[idx], &cur);
                        proof {
                            assert(rem_old[0] == oms0[idx as int]);
                            assert(rem_old.subrange(1, rem_old.len() as int) =~= oms0.subrange(
                                idx as int + 1,
                                oms0.len() as int,
                            ));
                        }
                        idx = idx + 1;
                    } else {
                        cur = combine_nodes(l, &cur, &pad);
                    }
                    pad = combine_nodes(l, &pad, &pad);
                    proof {
                        lemma_pow2_unfold((l + 1) as nat);
                        lemma_pow2_pos(l as nat);
                        lemma_div_denominator(p as int, pow2(l as nat) as int, 2);
                    }
                    q = q / 2;
                    l = l + 1;
                }
                proof {
                    lemma_basic_div(p as int, pow2(depth as nat) as int);
                }
                cur
            },
        }
    }

    /// The variable-size heap footprint of the frontier, as accounted to the
    /// host: a fixed charge for the frontier value itself plus 32 bytes per
    /// retained node hash (the last leaf and each ommer).
    pub fn dynamic_memory_usage(&self) -> (r: usize)
        ensures
            r as nat == dynamic_usage_spec(self@),
    {
        proof {
            use_type_invariant(self);
            if let Option::Some(s) = self@.state {
                lemma_count_ones_bound(s.position, self@.depth);
            }
        }
        match &self.state {
            Option::None => FRONTIER_BASE_BYTES,
            Option::Some(s) => FRONTIER_BASE_BYTES + 32 * (s.ommers.len() + 1),
        }
    }
}

/// Fixed accounting charge for a frontier value, independent of its contents.
pub const FRONTIER_BASE_BYTES: usize = 72;

/// The heap accounting formula: a fixed charge plus 32 bytes per stored hash.
pub open spec fn dynamic_usage_spec(m: FrontierModel) -> nat {
    match m.state {
        Option::None => FRONTIER_BASE_BYTES as nat,
        Option::Some(s) => (FRONTIER_BASE_BYTES + 32 * (s.ommers.len() + 1)) as nat,
    }
}

impl Clone for Frontier {
    /// A deep, independent copy with identical contents.
    fn clone(&self) -> (r: Self)
        ensures
            r@ == self@,
    {
        proof {
            use_type_invariant(self);
        }
        match &self.state {
            Option::None => Frontier { depth: self.depth, state: Option::None },
            Option::Some(s) => {
                let mut oms: Vec<Node> = Vec::new();
                let mut i: usize = 0;
                while i < s.ommers.len()
                    invariant
                        i <= s.ommers.len(),
                        oms@ =~= s.ommers@.subrange(0, i as int),
                    decreases s.ommers.len() - i,
                {
                    oms.push(s.ommers[i]);
                    i = i + 1;
                }
                proof {
                    assert(oms@ =~= s.ommers@);
                    assert(nodes_view(oms@) =~= nodes_view(s.ommers@));
                }
                let r = Frontier {
                    depth: self.depth,
                    state: Option::Some(NonEmpty { position: s.position, leaf: s.leaf, ommers: oms }),
                };
                proof {
                    assert(r@ =~= self@);
                }
                r
            },
        }
    }
}

/// One append grows the size by exactly one; a rejected append leaves the
/// frontier — and so its size — unchanged. The size never decreases.
pub proof fn lemma_append_size(m: FrontierModel, leaf: Seq<u8>)
    ensures
        size_spec(append_spec(m, leaf)) == size_spec(m) + 1,
{
}

/// After `n` successful appends to an empty frontier the size is exactly `n`.
pub proof fn lemma_size_of_build(depth: nat, leaves: Seq<Seq<u8>>)
    ensures
        size_spec(build_model(depth, leaves)) == leaves.len(),
    decreases leaves.len(),
{
    if leaves.len() > 0 {
        lemma_size_of_build(depth, leaves.drop_last());
        lemma_append_size(build_model(depth, leaves.drop_last()), leaves.last());
    }
}

/// Root determinism: the root is a function of the appended sequence alone.
/// Any two frontiers whose models arise from the same sequence of appends —
/// no matter how many clones or serialization round-trips lie in between,
/// since those preserve the model exactly — have identical roots.
pub proof fn lemma_root_determinism(
    depth: nat,
    leaves: Seq<Seq<u8>>,
    a: FrontierModel,
    b: FrontierModel,
)
    requires
        a == build_model(depth, leaves),
        b == build_model(depth, leaves),
    ensures
        root_spec(a) == root_spec(b),
{
}


/// Carry correctness at height two, for arbitrary commitments: four appends
/// to an empty frontier give the fully combined root; two appends give the
/// left pair combined with the empty level-1 subtree; three appends give the
/// left pair combined with the third leaf padded by an empty leaf.
pub proof fn lemma_carry_depth2(c0: Seq<u8>, c1: Seq<u8>, c2: Seq<u8>, c3: Seq<u8>)
    ensures
        root_spec(build_model(2, seq![c0, c1, c2, c3])) == combine_of(
            1,
            combine_of(0, c0, c1),
            combine_of(0, c2, c3),
        ),
        root_spec(build_model(2, seq![c0, c1])) == combine_of(
            1,
            combine_of(0, c0, c1),
            empty_hash(1),
        ),
        root_spec(build_model(2, seq![c0, c1, c2])) == combine_of(
            1,
            combine_of(0, c0, c1),
            combine_of(0, c2, empty_hash(0)),
        ),
{
    let ghost e = empty_model(2);
    let ghost l1 = seq![c0];
    let ghost l2 = seq![c0, c1];
    let ghost l3 = seq![c0, c1, c2];
    let ghost l4 = seq![c0, c1, c2, c3];
    let ghost h01 = combine_of(0, c0, c1);
    let ghost nil = Seq::<Seq<u8>>::empty();
    assert(l1.drop_last() =~= nil);
    assert(l2.drop_last() =~= l1);
    assert(l3.drop_last() =~= l2);
    assert(l4.drop_last() =~= l3);
    assert(append_all(e, nil) == e);
    let ghost m1 = append_spec(e, c0);
    let ghost m2 = append_spec(m1, c1);
    let ghost m3 = append_spec(m2, c2);
    let ghost m4 = append_spec(m3, c3);
    assert(build_model(2, l1) == m1);
    assert(build_model(2, l2) == m2);
    assert(build_model(2, l3) == m3);
    assert(build_model(2, l4) == m4);

    assert(m1.state == Option::Some(NonEmptyModel { position: 0, leaf: c0, ommers: nil }));
    assert(absorb(0, c0, nil, 0) =~= seq![c0]);
    assert(m2.state == Option::Some(NonEmptyModel { position: 1, leaf: c1, ommers: seq![c0] }));
    assert(seq![c0][0] == c0);
    assert(seq![c0].subrange(1, 1) =~= nil);
    assert(absorb(1, c1, seq![c0], 0) == absorb(0, h01, nil, 1));
    assert(absorb(0, h01, nil, 1) =~= seq![h01]);
    assert(m3.state == Option::Some(NonEmptyModel { position: 2, leaf: c2, ommers: seq![h01] }));
    assert(absorb(2, c2, seq![h01], 0) =~= seq![c2, h01]);
    assert(m4.state == Option::Some(
        NonEmptyModel { position: 3, leaf: c3, ommers: seq![c2, h01] },
    ));

    // Two appends: the level-0 pair is complete, level 1 is padded.
    assert(fill_up(1, c1, seq![c0], 0, 2) == fill_up(0, h01, nil, 1, 2));
    assert(fill_up(0, h01, nil, 1, 2) == fill_up(0, combine_of(1, h01, empty_hash(1)), nil, 2, 2));
    assert(root_spec(m2) == combine_of(1, h01, empty_hash(1)));

    // Three appends: the third leaf is padded at level 0.
    let ghost x = combine_of(0, c2, empty_hash(0));
    assert(fill_up(2, c2, seq![h01], 0, 2) == fill_up(1, x, seq![h01], 1, 2));
    assert(seq![h01][0] == h01);
    assert(seq![h01].subrange(1, 1) =~= nil);
    assert(fill_up(1, x, seq![h01], 1, 2) == fill_up(0, combine_of(1, h01, x), nil, 2, 2));
    assert(root_spec(m3) == combine_of(1, h01, x));

    // Four appends: both subtrees are complete.
    let ghost h23 = combine_of(0, c2, c3);
    assert(seq![c2, h01][0] == c2);
    assert(seq![c2, h01].subrange(1, 2) =~= seq![h01]);
    assert(fill_up(3, c3, seq![c2, h01], 0, 2) == fill_up(1, h23, seq![h01], 1, 2));
    assert(fill_up(1, h23, seq![h01], 1, 2) == fill_up(0, combine_of(1, h01, h23), nil, 2, 2));
    assert(root_spec(m4) == combine_of(1, h01, h23));
}

} // verus!
