//! The legacy fixed-depth encoding: the left/right leaf pair and a
//! fixed-length parent list, each entry marked present or absent, as the
//! pre-frontier tree representation stored it. Write-only: older readers
//! consume it, nothing here parses it.

use vstd::prelude::*;
use vstd::arithmetic::power2::pow2;
use vstd::arithmetic::power2::lemma_pow2_unfold;
use vstd::arithmetic::power2::lemma_pow2_pos;
use vstd::arithmetic::power2::lemma2_to64;
use vstd::arithmetic::div_mod::lemma_div_denominator;
use crate::bits::count_ones;
use crate::frontier::Frontier;
use crate::frontier::FrontierModel;
use crate::frontier::nodes_view;
use crate::codec::cs_bytes;
use crate::codec::push_cs;
use crate::codec::push_node;

verus! {

/// The parent entries for levels `level..depth`: a present marker and the
/// next remaining ommer wherever the corresponding bit of the position is set
/// (`q` is the position shifted down to `level`), an absent marker elsewhere.
pub open spec fn legacy_parents(q: nat, oms: Seq<Seq<u8>>, level: nat, depth: nat) -> Seq<u8>
    decreases depth - level,
{
    if level >= depth {
        Seq::empty()
    } else if q % 2 == 1 {
        (seq![1u8] + oms[0]) + legacy_parents(
            q / 2,
            oms.subrange(1, oms.len() as int),
            level + 1,
            depth,
        )
    } else {
        seq![0u8] + legacy_parents(q / 2, oms, level + 1, depth)
    }
}

/// The legacy encoding of a frontier: optional left and right leaves, then
/// the `depth - 1` parent entries, length-prefixed. An odd position makes the
/// level-0 ommer the left leaf and the last appended leaf the right one; an
/// empty frontier has both leaves absent.
pub open spec fn ser_legacy(m: FrontierModel) -> Seq<u8> {
    match m.state {
        Option::None => seq![0u8, 0u8] + cs_bytes(0),
        Option::Some(s) => (if s.position % 2 == 1 {
            (seq![1u8] + s.ommers[0]) + (seq![1u8] + s.leaf)
        } else {
            (seq![1u8] + s.leaf) + seq![0u8]
        }) + cs_bytes((m.depth - 1) as nat) + legacy_parents(
            s.position / 2,
            (if s.position % 2 == 1 {
                s.ommers.subrange(1, s.ommers.len() as int)
            } else {
                s.ommers
            }),
            1,
            m.depth,
        ),
    }
}

impl Frontier {
    /// Serializes this frontier in the legacy fixed-depth encoding. The
    /// frontier is not changed; the bytes are exactly `ser_legacy` of its
    /// model.
    pub fn serialize_legacy(&self) -> (r: Vec<u8>)
        ensures
            r@ == ser_legacy(self@),
            self@.wf(),
    {
        proof {
            use_type_invariant(self);
            lemma2_to64();
        }
        let depth = self.depth;
        let mut out: Vec<u8> = Vec::new();
        match &self.state {
            Option::None => {
                out.push(0);
                out.push(0);
                push_cs(&mut out, 0);
                proof {
                    assert(out@ =~= ser_legacy(self@));
                }
                out
            },
            Option::Some(s) => {
                let ghost p = s.position as nat;
                let ghost oms0 = nodes_view(s.ommers@);
                let mut idx: usize = 0;
                out.push(1);
                if s.position % 2 == 1 {
                    assert(count_ones(p) >= 1);
                    push_node(&mut out, &s.ommers[0]);
                    out.push(1);
                    push_node(&mut out, &s.leaf);
                    idx = 1;
                } else {
                    push_node(&mut out, &s.leaf);
                    out.push(0);
                }
                push_cs(&mut out, (depth - 1) as u64);
                let ghost pref = out@;
                let ghost oms_rest: Seq<Seq<u8>> = if p % 2 == 1 {
                    oms0.subrange(1, oms0.len() as int)
                } else {
                    oms0
                };
                let ghost full = legacy_parents(p / 2, oms_rest, 1, depth as nat);
                let ghost mut built = Seq::<u8>::empty();
                let mut q: u64 = s.position / 2;
                let mut level: u8 = 1;
                proof {
                    lemma_pow2_unfold(1);
                    assert(oms0.subrange(idx as int, oms0.len() as int) =~= oms_rest);
                    assert(pref + built =~= pref);
                }
                while level < depth
                    invariant
                        1 <= level <= depth,
                        idx <= s.ommers.len(),
                        oms0 == nodes_view(s.ommers@),
                        oms0.len() == count_ones(p),
                        p == s.position as nat,
                        q as nat == p / pow2(level as nat),
                        idx + count_ones(q as nat) == count_ones(p),
                        out@ == pref + built,
                        full == built + legacy_parents(
                            q as nat,
                            oms0.subrange(idx as int, oms0.len() as int),
                            level as nat,
                            depth as nat,
                        ),
                    decreases depth - level,
                {
                    let ghost rem_old = oms0.subrange(idx as int, oms0.len() as int);
                    let ghost built_old = built;
                    if q % 2 == 1 {
                        assert(count_ones(q as nat) >= 1);
                        assert(idx < s.ommers.len());
                        out.push(1);
                        push_node(&mut out, &s.ommers[idx]);
                        proof {
                            built = built_old + (seq![1u8] + rem_old[0]);
                            assert(rem_old[0] == oms0[idx as int]);
                            assert(rem_old.subrange(1, rem_old.len() as int) =~= oms0.subrange(
                                idx as int + 1,
                                oms0.len() as int,
                            ));
                            assert(out@ =~= pref + built);
                            assert(built_old + ((seq![1u8] + rem_old[0]) + legacy_parents(
                                (q as nat) / 2,
                                rem_old.subrange(1, rem_old.len() as int),
                                level as nat + 1,
                                depth as nat,
                            )) =~= built + legacy_parents(
                                (q as nat) / 2,
                                rem_old.subrange(1, rem_old.len() as int),
                                level as nat + 1,
                                depth as nat,
                            ));
                        }
                        idx = idx + 1;
                    } else {
                        out.push(0);
                        proof {
                            built = built_old + seq![0u8];
                            assert(out@ =~= pref + built);
                            assert(built_old + (seq![0u8] + legacy_parents(
                                (q as nat) / 2,
                                rem_old,
                                level as nat + 1,
                                depth as nat,
                            )) =~= built + legacy_parents(
                                (q as nat) / 2,
                                rem_old,
                                level as nat + 1,
                                depth as nat,
                            ));
                        }
                    }
                    proof {
                        lemma_pow2_unfold((level + 1) as nat);
                        lemma_pow2_pos(level as nat);
                        lemma_div_denominator(p as int, pow2(level as nat) as int, 2);
                    }
                    q = q / 2;
                    level = level + 1;
                }
                proof {
                    assert(built + Seq::<u8>::empty() =~= built);
                    assert(out@ =~= ser_legacy(self@));
                }
                out
            },
        }
    }
}

} // verus!
