//! The versioned frontier wire format: an emptiness marker, then the
//! position as a compact size, the leaf pair, and the ommer list. Reading and
//! writing are pure functions on bytes, specified exactly and proved to
//! round-trip on every well-formed frontier.

use vstd::prelude::*;
use vstd::arithmetic::power2::pow2;
use vstd::arithmetic::div_mod::lemma_fundamental_div_mod;
use crate::bits::count_ones;
use crate::bits::pow2_u64;
use crate::hash::Node;
use crate::hash::is_canonical;
use crate::frontier::Frontier;
use crate::frontier::NonEmpty;
use crate::frontier::FrontierModel;
use crate::frontier::NonEmptyModel;
use crate::frontier::empty_model;
use crate::frontier::nodes_view;
use crate::frontier::nodes_ok;

verus! {

broadcast use vstd::array::group_array_axioms;

/// Why a byte stream failed to parse as a frontier.
#[derive(Clone, Copy, Debug, PartialEq, Eq, Structural)]
pub enum ParseError {
    /// The input ended before a complete value was read.
    Truncated,
    /// A presence marker held a byte other than 0 or 1: an encoding no
    /// recognized writer produces.
    BadMarker,
    /// A multi-byte compact size was not minimally encoded.
    NonCanonicalSize,
    /// 32 bytes that are not the canonical encoding of a node hash.
    InvalidNode,
    /// The ommer list length does not match the declared position.
    PositionMismatch,
    /// The declared position needs a deeper tree than this frontier supports.
    DepthExceeded,
}

/// Little-endian bytes of a value below `2^16`.
pub open spec fn le2(n: nat) -> Seq<u8> {
    seq![(n % 256) as u8, ((n / 256) % 256) as u8]
}

/// Little-endian bytes of a value below `2^32`.
pub open spec fn le4(n: nat) -> Seq<u8> {
    seq![
        (n % 256) as u8,
        ((n / 256) % 256) as u8,
        ((n / 65536) % 256) as u8,
        ((n / 16777216) % 256) as u8,
    ]
}

/// Little-endian bytes of a value below `2^64`.
pub open spec fn le8(n: nat) -> Seq<u8> {
    seq![
        (n % 256) as u8,
        ((n / 256) % 256) as u8,
        ((n / 65536) % 256) as u8,
        ((n / 16777216) % 256) as u8,
        ((n / 4294967296) % 256) as u8,
        ((n / 1099511627776) % 256) as u8,
        ((n / 281474976710656) % 256) as u8,
        ((n / 72057594037927936) % 256) as u8,
    ]
}

/// The compact-size encoding: one byte below 253, otherwise a tag byte and a
/// minimal little-endian value.
pub open spec fn cs_bytes(n: nat) -> Seq<u8> {
    if n < 253 {
        seq![n as u8]
    } else if n < 65536 {
        seq![253u8] + le2(n)
    } else if n < 4294967296 {
        seq![254u8] + le4(n)
    } else {
        seq![255u8] + le8(n)
    }
}

/// The concatenated encodings of a list of node hashes.
pub open spec fn ser_nodes(oms: Seq<Seq<u8>>) -> Seq<u8>
    decreases oms.len(),
{
    if oms.len() == 0 {
        Seq::empty()
    } else {
        oms.first() + ser_nodes(oms.drop_first())
    }
}

/// The versioned encoding of a frontier: `0` for empty; else `1`, the
/// position, the leaf pair — for an odd position the level-0 ommer stands
/// first and the leaf follows as a present optional value — and the
/// remaining ommers, length-prefixed.
pub open spec fn ser_v1(m: FrontierModel) -> Seq<u8> {
    match m.state {
        Option::None => seq![0u8],
        Option::Some(s) => seq![1u8] + cs_bytes(s.position) + (if s.position % 2 == 1 {
            s.ommers[0] + seq![1u8] + s.leaf + cs_bytes((s.ommers.len() - 1) as nat) + ser_nodes(
                s.ommers.drop_first(),
            )
        } else {
            s.leaf + seq![0u8] + cs_bytes(s.ommers.len() as nat) + ser_nodes(s.ommers)
        }),
    }
}

/// Appending one hash to a node list appends its bytes to the encoding.
proof fn lemma_ser_nodes_snoc(oms: Seq<Seq<u8>>, x: Seq<u8>)
    ensures
        ser_nodes(oms.push(x)) == ser_nodes(oms) + x,
    decreases oms.len(),
{
    if oms.len() == 0 {
        let e = Seq::<Seq<u8>>::empty();
        assert(oms.push(x).drop_first() =~= e);
        assert(oms.push(x)[0] == x);
        assert(ser_nodes(oms.push(x)) == oms.push(x).first() + ser_nodes(e));
        assert(oms.push(x).first() + ser_nodes(e) =~= x);
        assert(ser_nodes(oms) + x =~= x);
    } else {
        assert(oms.push(x).drop_first() =~= oms.drop_first().push(x));
        assert(oms.push(x).first() == oms.first());
        lemma_ser_nodes_snoc(oms.drop_first(), x);
        assert(oms.first() + (ser_nodes(oms.drop_first()) + x) =~= (oms.first() + ser_nodes(
            oms.drop_first(),
        )) + x);
    }
}

/// Writes the 32 bytes of a node.
pub(crate) fn push_node(out: &mut Vec<u8>, n: &Node)
    ensures
        final(out)@ == old(out)@ + n@,
{
    proof {
        use_type_invariant(n);
        crate::hash::Node::lemma_valid(*n);
    }
    let mut i: usize = 0;
    while i < 32
        invariant
            i <= 32,
            n@.len() == 32,
            out@ == old(out)@ + n@.subrange(0, i as int),
        decreases 32 - i,
    {
        out.push(n.byte_at(i));
        proof {
            assert(old(out)@ + n@.subrange(0, i as int + 1) =~= (old(out)@ + n@.subrange(
                0,
                i as int,
            )).push(n@[i as int]));
        }
        i = i + 1;
    }
    proof {
        assert(n@.subrange(0, 32) =~= n@);
    }
}

/// Writes a compact size.
pub(crate) fn push_cs(out: &mut Vec<u8>, n: u64)
    ensures
        final(out)@ == old(out)@ + cs_bytes(n as nat),
{
    if n < 253 {
        out.push(n as u8);
        proof {
            assert(out@ =~= old(out)@ + cs_bytes(n as nat));
        }
    } else if n < 65536 {
        out.push(253);
        out.push((n % 256) as u8);
        out.push(((n / 256) % 256) as u8);
        proof {
            assert(out@ =~= old(out)@ + cs_bytes(n as nat));
        }
    } else if n < 4294967296 {
        out.push(254);
        out.push((n % 256) as u8);
        out.push(((n / 256) % 256) as u8);
        out.push(((n / 65536) % 256) as u8);
        out.push(((n / 16777216) % 256) as u8);
        proof {
            assert(out@ =~= old(out)@ + cs_bytes(n as nat));
        }
    } else {
        out.push(255);
        out.push((n % 256) as u8);
        out.push(((n / 256) % 256) as u8);
        out.push(((n / 65536) % 256) as u8);
        out.push(((n / 16777216) % 256) as u8);
        out.push(((n / 4294967296) % 256) as u8);
        out.push(((n / 1099511627776) % 256) as u8);
        out.push(((n / 281474976710656) % 256) as u8);
        out.push(((n / 72057594037927936) % 256) as u8);
        proof {
            assert(out@ =~= old(out)@ + cs_bytes(n as nat));
        }
    }
}

/// Writes the node hashes at positions `start..` of `oms`, in order.
fn push_nodes_from(out: &mut Vec<u8>, oms: &Vec<Node>, start: usize)
    requires
        start <= oms.len(),
    ensures
        final(out)@ == old(out)@ + ser_nodes(
            nodes_view(oms@).subrange(start as int, oms@.len() as int),
        ),
{
    let mut j: usize = start;
    proof {
        assert(nodes_view(oms@).subrange(start as int, start as int) =~= Seq::<Seq<u8>>::empty());
        assert(out@ =~= old(out)@ + ser_nodes(nodes_view(oms@).subrange(
            start as int,
            start as int,
        )));
    }
    while j < oms.len()
        invariant
            start <= j <= oms.len(),
            out@ == old(out)@ + ser_nodes(nodes_view(oms@).subrange(start as int, j as int)),
        decreases oms.len() - j,
    {
        push_node(out, &oms[j]);
        proof {
            assert(nodes_view(oms@).subrange(start as int, j as int + 1) =~= nodes_view(
                oms@,
            ).subrange(start as int, j as int).push(nodes_view(oms@)[j as int]));
            lemma_ser_nodes_snoc(
                nodes_view(oms@).subrange(start as int, j as int),
                nodes_view(oms@)[j as int],
            );
        }
        j = j + 1;
    }
}

impl Frontier {
    /// Serializes this frontier in the versioned encoding. The frontier is
    /// not changed; the bytes are exactly `ser_v1` of its model.
    pub fn serialize(&self) -> (r: Vec<u8>)
        ensures
            r@ == ser_v1(self@),
            self@.wf(),
    {
        proof {
            use_type_invariant(self);
        }
        let mut out: Vec<u8> = Vec::new();
        match &self.state {
            Option::None => {
                out.push(0);
                proof {
                    assert(out@ =~= ser_v1(self@));
                }
                out
            },
            Option::Some(s) => {
                out.push(1);
                proof {
                    assert(out@ =~= seq![1u8]);
                }
                push_cs(&mut out, s.position);
                if s.position % 2 == 1 {
                    assert(count_ones(s.position as nat) >= 1);
                    push_node(&mut out, &s.ommers[0]);
                    out.push(1);
                    push_node(&mut out, &s.leaf);
                    push_cs(&mut out, (s.ommers.len() - 1) as u64);
                    push_nodes_from(&mut out, &s.ommers, 1);
                    proof {
                        assert(nodes_view(s.ommers@).subrange(1, s.ommers@.len() as int)
                            =~= s@.ommers.drop_first());
                        assert(nodes_view(s.ommers@)[0] == s@.ommers[0]);
                        assert(out@ =~= ser_v1(self@));
                    }
                } else {
                    push_node(&mut out, &s.leaf);
                    out.push(0);
                    push_cs(&mut out, s.ommers.len() as u64);
                    push_nodes_from(&mut out, &s.ommers, 0);
                    proof {
                        assert(nodes_view(s.ommers@).subrange(0, s.ommers@.len() as int)
                            =~= s@.ommers);
                        assert(out@ =~= ser_v1(self@));
                    }
                }
                out
            },
        }
    }
}


/// Reads one byte.
pub open spec fn rd_u8(b: Seq<u8>, i: int) -> Result<(u8, int), ParseError> {
    if i < b.len() {
        Ok((b[i], i + 1))
    } else {
        Err(ParseError::Truncated)
    }
}

/// Reads a compact size, rejecting non-minimal encodings.
pub open spec fn rd_cs(b: Seq<u8>, i: int) -> Result<(nat, int), ParseError> {
    if i >= b.len() {
        Err(ParseError::Truncated)
    } else {
        let tag = b[i];
        if tag < 253 {
            Ok((tag as nat, i + 1))
        } else if tag == 253 {
            if i + 3 > b.len() {
                Err(ParseError::Truncated)
            } else {
                let v = (b[i + 1] + 256 * b[i + 2]) as nat;
                if v >= 253 {
                    Ok((v, i + 3))
                } else {
                    Err(ParseError::NonCanonicalSize)
                }
            }
        } else if tag == 254 {
            if i + 5 > b.len() {
                Err(ParseError::Truncated)
            } else {
                let v = (b[i + 1] + 256 * b[i + 2] + 65536 * b[i + 3] + 16777216 * b[i + 4]) as nat;
                if v >= 65536 {
                    Ok((v, i + 5))
                } else {
                    Err(ParseError::NonCanonicalSize)
                }
            }
        } else {
            if i + 9 > b.len() {
                Err(ParseError::Truncated)
            } else {
                let v = (b[i + 1] + 256 * b[i + 2] + 65536 * b[i + 3] + 16777216 * b[i + 4]
                    + 4294967296 * b[i + 5] + 1099511627776 * b[i + 6] + 281474976710656 * b[i + 7]
                    + 72057594037927936 * b[i + 8]) as nat;
                if v >= 4294967296 {
                    Ok((v, i + 9))
                } else {
                    Err(ParseError::NonCanonicalSize)
                }
            }
        }
    }
}

/// Reads one 32-byte node hash, rejecting non-canonical encodings.
pub open spec fn rd_node(b: Seq<u8>, i: int) -> Result<(Seq<u8>, int), ParseError> {
    if i + 32 > b.len() {
        Err(ParseError::Truncated)
    } else if is_canonical(b.subrange(i, i + 32)) {
        Ok((b.subrange(i, i + 32), i + 32))
    } else {
        Err(ParseError::InvalidNode)
    }
}

/// Reads `n` node hashes in order.
pub open spec fn rd_nodes(b: Seq<u8>, i: int, n: nat) -> Result<(Seq<Seq<u8>>, int), ParseError>
    decreases n,
{
    if n == 0 {
        Ok((Seq::empty(), i))
    } else {
        match rd_node(b, i) {
            Err(e) => Err(e),
            Ok((h, j)) => match rd_nodes(b, j, (n - 1) as nat) {
                Err(e) => Err(e),
                Ok((t, k)) => Ok((seq![h] + t, k)),
            },
        }
    }
}

/// The consistency checks after the raw fields are read: the ommer count
/// must match the set bits of the position, and the position must fit the
/// tree, in that order.
pub open spec fn finish_v1(
    depth: nat,
    pos: nat,
    leaf: Seq<u8>,
    oms: Seq<Seq<u8>>,
    used: int,
) -> Result<(FrontierModel, int), ParseError> {
    if oms.len() != count_ones(pos) {
        Err(ParseError::PositionMismatch)
    } else if pos >= pow2(depth) {
        Err(ParseError::DepthExceeded)
    } else {
        Ok((
            FrontierModel {
                depth,
                state: Option::Some(NonEmptyModel { position: pos, leaf, ommers: oms }),
            },
            used,
        ))
    }
}

/// Parsing the versioned encoding: the exact meaning of `Frontier::parse`,
/// including which error each malformed input produces.
pub open spec fn parse_v1_spec(b: Seq<u8>, depth: nat) -> Result<(FrontierModel, int), ParseError> {
    match rd_u8(b, 0) {
        Err(e) => Err(e),
        Ok((tag, i1)) => if tag == 0 {
            Ok((empty_model(depth), i1))
        } else if tag != 1 {
            Err(ParseError::BadMarker)
        } else {
            match rd_cs(b, i1) {
                Err(e) => Err(e),
                Ok((pos, i2)) => match rd_node(b, i2) {
                    Err(e) => Err(e),
                    Ok((left, i3)) => match rd_u8(b, i3) {
                        Err(e) => Err(e),
                        Ok((t2, i4)) => if t2 == 0 {
                            match rd_cs(b, i4) {
                                Err(e) => Err(e),
                                Ok((cnt, i5)) => match rd_nodes(b, i5, cnt) {
                                    Err(e) => Err(e),
                                    Ok((oms, i6)) => finish_v1(depth, pos, left, oms, i6),
                                },
                            }
                        } else if t2 == 1 {
                            match rd_node(b, i4) {
                                Err(e) => Err(e),
                                Ok((right, i5)) => match rd_cs(b, i5) {
                                    Err(e) => Err(e),
                                    Ok((cnt, i6)) => match rd_nodes(b, i6, cnt) {
                                        Err(e) => Err(e),
                                        Ok((oms, i7)) => finish_v1(
                                            depth,
                                            pos,
                                            right,
                                            seq![left] + oms,
                                            i7,
                                        ),
                                    },
                                },
                            }
                        } else {
                            Err(ParseError::BadMarker)
                        },
                    },
                },
            }
        },
    }
}

/// Reads one byte of the input.
fn read_u8(b: &Vec<u8>, i: usize) -> (r: Result<(u8, usize), ParseError>)
    requires
        i <= b.len(),
    ensures
        match r {
            Ok((v, j)) => rd_u8(b@, i as int) == Ok::<(u8, int), ParseError>((v, j as int)) && i
                < j <= b.len(),
            Err(e) => rd_u8(b@, i as int) == Err::<(u8, int), ParseError>(e),
        },
{
    if i < b.len() {
        Ok((b[i], i + 1))
    } else {
        Err(ParseError::Truncated)
    }
}

/// Reads a compact size.
fn read_cs(b: &Vec<u8>, i: usize) -> (r: Result<(u64, usize), ParseError>)
    requires
        i <= b.len(),
    ensures
        match r {
            Ok((v, j)) => rd_cs(b@, i as int) == Ok::<(nat, int), ParseError>((v as nat, j as int))
                && i < j <= b.len(),
            Err(e) => rd_cs(b@, i as int) == Err::<(nat, int), ParseError>(e),
        },
{
    if i >= b.len() {
        return Err(ParseError::Truncated);
    }
    let tag = b[i];
    if tag < 253 {
        Ok((tag as u64, i + 1))
    } else if tag == 253 {
        if b.len() - i < 3 {
            return Err(ParseError::Truncated);
        }
        let v: u64 = b[i + 1] as u64 + 256 * (b[i + 2] as u64);
        if v >= 253 {
            Ok((v, i + 3))
        } else {
            Err(ParseError::NonCanonicalSize)
        }
    } else if tag == 254 {
        if b.len() - i < 5 {
            return Err(ParseError::Truncated);
        }
        let v: u64 = b[i + 1] as u64 + 256 * (b[i + 2] as u64) + 65536 * (b[i + 3] as u64)
            + 16777216 * (b[i + 4] as u64);
        if v >= 65536 {
            Ok((v, i + 5))
        } else {
            Err(ParseError::NonCanonicalSize)
        }
    } else {
        if b.len() - i < 9 {
            return Err(ParseError::Truncated);
        }
        let v: u64 = b[i + 1] as u64 + 256 * (b[i + 2] as u64) + 65536 * (b[i + 3] as u64)
            + 16777216 * (b[i + 4] as u64) + 4294967296 * (b[i + 5] as u64) + 1099511627776 * (b[i
            + 6] as u64) + 281474976710656 * (b[i + 7] as u64) + 72057594037927936 * (b[i
            + 8] as u64);
        if v >= 4294967296 {
            Ok((v, i + 9))
        } else {
            Err(ParseError::NonCanonicalSize)
        }
    }
}

/// Reads one node hash.
fn read_node(b: &Vec<u8>, i: usize) -> (r: Result<(Node, usize), ParseError>)
    requires
        i <= b.len(),
    ensures
        match r {
            Ok((n, j)) => rd_node(b@, i as int) == Ok::<(Seq<u8>, int), ParseError>((n@, j as int))
                && i < j <= b.len(),
            Err(e) => rd_node(b@, i as int) == Err::<(Seq<u8>, int), ParseError>(e),
        },
{
    if b.len() - i < 32 {
        return Err(ParseError::Truncated);
    }
    match Node::from_bytes(b, i) {
        Option::Some(n) => {
            proof {
                use_type_invariant(&n);
                crate::hash::Node::lemma_valid(n);
            }
            Ok((n, i + 32))
        },
        Option::None => Err(ParseError::InvalidNode),
    }
}

/// Reads `n` node hashes, appending them to `out` in input order.
fn read_nodes(b: &Vec<u8>, i: usize, n: u64) -> (r: Result<(Vec<Node>, usize), ParseError>)
    requires
        i <= b.len(),
    ensures
        match r {
            Ok((v, j)) => rd_nodes(b@, i as int, n as nat) == Ok::<
                (Seq<Seq<u8>>, int),
                ParseError,
            >((nodes_view(v@), j as int)) && i <= j <= b.len(),
            Err(e) => rd_nodes(b@, i as int, n as nat) == Err::<(Seq<Seq<u8>>, int), ParseError>(e),
        },
{
    let mut out: Vec<Node> = Vec::new();
    let mut cur: usize = i;
    let mut k: u64 = 0;
    proof {
        assert(nodes_view(out@) =~= Seq::<Seq<u8>>::empty());
    }
    while k < n
        invariant
            k <= n,
            i <= cur <= b.len(),
            forall|t: Seq<Seq<u8>>, e: int|
                rd_nodes(b@, cur as int, (n - k) as nat) == Ok::<(Seq<Seq<u8>>, int), ParseError>((
                    t,
                    e,
                )) ==> rd_nodes(b@, i as int, n as nat) == Ok::<(Seq<Seq<u8>>, int), ParseError>((
                    nodes_view(out@) + t,
                    e,
                )),
            forall|e: ParseError|
                rd_nodes(b@, cur as int, (n - k) as nat) == Err::<(Seq<Seq<u8>>, int), ParseError>(
                    e,
                ) ==> rd_nodes(b@, i as int, n as nat) == Err::<(Seq<Seq<u8>>, int), ParseError>(e),
        decreases n - k,
    {
        let ghost rem = (n - k) as nat;
        let ghost prev_views = nodes_view(out@);
        match read_node(b, cur) {
            Err(e) => {
                return Err(e);
            },
            Ok((h, j)) => {
                out.push(h);
                proof {
                    assert(nodes_view(out@) =~= prev_views.push(h@));
                    assert forall|t: Seq<Seq<u8>>, e: int|
                        rd_nodes(b@, j as int, (rem - 1) as nat) == Ok::<
                            (Seq<Seq<u8>>, int),
                            ParseError,
                        >((t, e)) implies rd_nodes(b@, i as int, n as nat) == Ok::<
                        (Seq<Seq<u8>>, int),
                        ParseError,
                    >((nodes_view(out@) + t, e)) by {
                        assert(rd_nodes(b@, cur as int, rem) == Ok::<
                            (Seq<Seq<u8>>, int),
                            ParseError,
                        >((seq![h@] + t, e)));
                        assert(prev_views + (seq![h@] + t) =~= prev_views.push(h@) + t);
                    }
                }
                cur = j;
                k = k + 1;
            },
        }
    }
    proof {
        assert(nodes_view(out@) + Seq::<Seq<u8>>::empty() =~= nodes_view(out@));
    }
    Ok((out, cur))
}

/// A successful node-list read yields `n` canonical 32-byte hashes.
proof fn lemma_rd_nodes_ok(b: Seq<u8>, i: int, n: nat)
    requires
        0 <= i,
    ensures
        match rd_nodes(b, i, n) {
            Ok((t, e)) => nodes_ok(t) && t.len() == n,
            Err(_) => true,
        },
    decreases n,
{
    if n > 0 {
        match rd_node(b, i) {
            Ok((h, j)) => {
                lemma_rd_nodes_ok(b, j, (n - 1) as nat);
                match rd_nodes(b, j, (n - 1) as nat) {
                    Ok((t, k)) => {
                        assert(h == b.subrange(i, i + 32));
                        assert forall|x: int| 0 <= x < (seq![h] + t).len() implies ((seq![h]
                            + t)[x]).len() == 32 && is_canonical((seq![h] + t)[x]) by {
                            if x > 0 {
                                assert(t[x - 1].len() == 32 && is_canonical(t[x - 1]));
                                assert((seq![h] + t)[x] == t[x - 1]);
                            } else {
                                assert(h.len() == 32 && is_canonical(h));
                                assert((seq![h] + t)[0] == h);
                            }
                        }
                    },
                    Err(_) => {},
                }
            },
            Err(_) => {},
        }
    }
}

/// Counts the set bits of `q`.
fn popcount_u64(q: u64) -> (r: u64)
    ensures
        r as nat == count_ones(q as nat),
{
    let mut q2: u64 = q;
    let mut r: u64 = 0;
    proof {
        vstd::arithmetic::power2::lemma2_to64_rest();
        crate::bits::lemma_count_ones_bound(q as nat, 64);
    }
    while q2 > 0
        invariant
            r as nat + count_ones(q2 as nat) == count_ones(q as nat),
            count_ones(q as nat) <= 64,
        decreases q2,
    {
        r = r + q2 % 2;
        q2 = q2 / 2;
    }
    r
}

impl Frontier {
    /// Parses the versioned encoding for a tree of height `depth`, returning
    /// the frontier and how many bytes were consumed, or the exact error that
    /// `parse_v1_spec` assigns to the input.
    pub fn parse(bytes: &Vec<u8>, depth: u8) -> (r: Result<(Frontier, usize), ParseError>)
        requires
            1 <= depth <= 62,
        ensures
            match r {
                Ok((f, used)) => parse_v1_spec(bytes@, depth as nat) == Ok::<
                    (FrontierModel, int),
                    ParseError,
                >((f@, used as int)) && f@.wf(),
                Err(e) => parse_v1_spec(bytes@, depth as nat) == Err::<
                    (FrontierModel, int),
                    ParseError,
                >(e),
            },
    {
        let (tag, i1) = match read_u8(bytes, 0) {
            Ok(v) => v,
            Err(e) => {
                return Err(e);
            },
        };
        if tag == 0 {
            return Ok((Frontier::empty(depth), i1));
        }
        if tag != 1 {
            return Err(ParseError::BadMarker);
        }
        let (pos, i2) = match read_cs(bytes, i1) {
            Ok(v) => v,
            Err(e) => {
                return Err(e);
            },
        };
        let (left, i3) = match read_node(bytes, i2) {
            Ok(v) => v,
            Err(e) => {
                return Err(e);
            },
        };
        let (t2, i4) = match read_u8(bytes, i3) {
            Ok(v) => v,
            Err(e) => {
                return Err(e);
            },
        };
        let (leaf, oms, used): (Node, Vec<Node>, usize) = if t2 == 0 {
            let (cnt, i5) = match read_cs(bytes, i4) {
                Ok(v) => v,
                Err(e) => {
                    return Err(e);
                },
            };
            let (oms, i6) = match read_nodes(bytes, i5, cnt) {
                Ok(v) => v,
                Err(e) => {
                    return Err(e);
                },
            };
            proof {
                lemma_rd_nodes_ok(bytes@, i5 as int, cnt as nat);
                assert(nodes_ok(nodes_view(oms@)));
            }
            (left, oms, i6)
        } else if t2 == 1 {
            let (right, i5) = match read_node(bytes, i4) {
                Ok(v) => v,
                Err(e) => {
                    return Err(e);
                },
            };
            let (cnt, i6) = match read_cs(bytes, i5) {
                Ok(v) => v,
                Err(e) => {
                    return Err(e);
                },
            };
            let (tail, i7) = match read_nodes(bytes, i6, cnt) {
                Ok(v) => v,
                Err(e) => {
                    return Err(e);
                },
            };
            proof {
                use_type_invariant(&left);
                crate::hash::Node::lemma_valid(left);
                lemma_rd_nodes_ok(bytes@, i6 as int, cnt as nat);
            }
            let mut oms: Vec<Node> = Vec::new();
            oms.push(left);
            let mut w: usize = 0;
            while w < tail.len()
                invariant
                    w <= tail.len(),
                    oms@ =~= seq![left] + tail@.subrange(0, w as int),
                decreases tail.len() - w,
            {
                oms.push(tail[w]);
                proof {
                    assert(oms@ =~= seq![left] + tail@.subrange(0, w as int + 1));
                }
                w = w + 1;
            }
            proof {
                assert(oms@ =~= seq![left] + tail@);
                assert forall|x: int| 0 <= x < nodes_view(oms@).len() implies nodes_view(oms@)[x]
                    == (seq![left@] + nodes_view(tail@))[x] by {
                    if x > 0 {
                        assert(oms@[x] == tail@[x - 1]);
                    }
                }
                assert(nodes_view(oms@) =~= seq![left@] + nodes_view(tail@));
                assert(nodes_ok(nodes_view(oms@)));
            }
            (right, oms, i7)
        } else {
            return Err(ParseError::BadMarker);
        };
        proof {
            use_type_invariant(&leaf);
            crate::hash::Node::lemma_valid(leaf);
            assert(nodes_ok(nodes_view(oms@)));
        }
        let count = popcount_u64(pos);
        if oms.len() as u64 != count {
            return Err(ParseError::PositionMismatch);
        }
        let cap = pow2_u64(depth);
        if pos >= cap {
            return Err(ParseError::DepthExceeded);
        }
        let f = Frontier {
            depth,
            state: Option::Some(NonEmpty { position: pos, leaf, ommers: oms }),
        };
        Ok((f, used))
    }
}


/// Reading a compact size back from its own encoding yields the value.
proof fn lemma_cs_read(b: Seq<u8>, i: int, n: nat)
    requires
        0 <= i,
        n < 18446744073709551616,
        i + cs_bytes(n).len() <= b.len(),
        b.subrange(i, i + cs_bytes(n).len() as int) == cs_bytes(n),
    ensures
        rd_cs(b, i) == Ok::<(nat, int), ParseError>((n, i + cs_bytes(n).len())),
{
    let x = n as u64;
    let blen = cs_bytes(n).len() as int;
    assert forall|k: int| 0 <= k < blen implies b[i + k] == cs_bytes(n)[k] by {
        assert(b.subrange(i, i + blen)[k] == cs_bytes(n)[k]);
    }
    if n < 253 {
        assert(b[i] == cs_bytes(n)[0]);
        assert(cs_bytes(n)[0] == n as u8);
    } else if n < 65536 {
        assert(b[i] == cs_bytes(n)[0]);
        assert(b[i + 1] == cs_bytes(n)[1]);
        assert(cs_bytes(n)[1] == le2(n)[0]);
        assert(b[i + 2] == cs_bytes(n)[2]);
        assert(cs_bytes(n)[2] == le2(n)[1]);
        assert(n % 256 < 256) by (nonlinear_arith);
        assert((n / 256) % 256 < 256) by (nonlinear_arith);
        assert(x % 256 + 256 * ((x / 256) % 256) == x) by (bit_vector)
            requires
                x < 65536u64,
        ;
    } else if n < 4294967296 {
        assert(b[i] == cs_bytes(n)[0]);
        assert(b[i + 1] == cs_bytes(n)[1]);
        assert(cs_bytes(n)[1] == le4(n)[0]);
        assert(b[i + 2] == cs_bytes(n)[2]);
        assert(cs_bytes(n)[2] == le4(n)[1]);
        assert(b[i + 3] == cs_bytes(n)[3]);
        assert(cs_bytes(n)[3] == le4(n)[2]);
        assert(b[i + 4] == cs_bytes(n)[4]);
        assert(cs_bytes(n)[4] == le4(n)[3]);
        assert(n % 256 < 256) by (nonlinear_arith);
        assert((n / 256) % 256 < 256) by (nonlinear_arith);
        assert((n / 65536) % 256 < 256) by (nonlinear_arith);
        assert((n / 16777216) % 256 < 256) by (nonlinear_arith);
        assert(x % 256 + 256 * ((x / 256) % 256) + 65536 * ((x / 65536) % 256) + 16777216 * ((x
            / 16777216) % 256) == x) by (bit_vector)
            requires
                x < 4294967296u64,
        ;
    } else {
        assert(b[i] == cs_bytes(n)[0]);
        assert(b[i + 1] == cs_bytes(n)[1]);
        assert(cs_bytes(n)[1] == le8(n)[0]);
        assert(b[i + 2] == cs_bytes(n)[2]);
        assert(cs_bytes(n)[2] == le8(n)[1]);
        assert(b[i + 3] == cs_bytes(n)[3]);
        assert(cs_bytes(n)[3] == le8(n)[2]);
        assert(b[i + 4] == cs_bytes(n)[4]);
        assert(cs_bytes(n)[4] == le8(n)[3]);
        assert(b[i + 5] == cs_bytes(n)[5]);
        assert(cs_bytes(n)[5] == le8(n)[4]);
        assert(b[i + 6] == cs_bytes(n)[6]);
        assert(cs_bytes(n)[6] == le8(n)[5]);
        assert(b[i + 7] == cs_bytes(n)[7]);
        assert(cs_bytes(n)[7] == le8(n)[6]);
        assert(b[i + 8] == cs_bytes(n)[8]);
        assert(cs_bytes(n)[8] == le8(n)[7]);
        assert(n % 256 < 256) by (nonlinear_arith);
        assert((n / 256) % 256 < 256) by (nonlinear_arith);
        assert((n / 65536) % 256 < 256) by (nonlinear_arith);
        assert((n / 16777216) % 256 < 256) by (nonlinear_arith);
        assert((n / 4294967296) % 256 < 256) by (nonlinear_arith);
        assert((n / 1099511627776) % 256 < 256) by (nonlinear_arith);
        assert((n / 281474976710656) % 256 < 256) by (nonlinear_arith);
        assert((n / 72057594037927936) % 256 < 256) by (nonlinear_arith);
        assert(x % 256 + 256 * ((x / 256) % 256) + 65536 * ((x / 65536) % 256) + 16777216 * ((x
            / 16777216) % 256) + 4294967296 * ((x / 4294967296) % 256) + 1099511627776 * ((x
            / 1099511627776) % 256) + 281474976710656 * ((x / 281474976710656) % 256)
            + 72057594037927936 * ((x / 72057594037927936) % 256) == x) by (bit_vector);
    }
}

/// The encoding of a well-formed node list is 32 bytes per node.
proof fn lemma_ser_nodes_len(oms: Seq<Seq<u8>>)
    requires
        nodes_ok(oms),
    ensures
        ser_nodes(oms).len() == 32 * oms.len(),
    decreases oms.len(),
{
    if oms.len() > 0 {
        assert(nodes_ok(oms.drop_first())) by {
            assert forall|x: int| 0 <= x < oms.drop_first().len()
                implies (#[trigger] oms.drop_first()[x]).len() == 32 && is_canonical(
                oms.drop_first()[x]) by {
                assert(oms.drop_first()[x] == oms[x + 1]);
            }
        }
        lemma_ser_nodes_len(oms.drop_first());
        assert(oms.first().len() == 32);
    }
}

/// Reading a node list back from its own encoding yields the list.
proof fn lemma_nodes_read(b: Seq<u8>, i: int, oms: Seq<Seq<u8>>)
    requires
        0 <= i,
        nodes_ok(oms),
        i + 32 * oms.len() <= b.len(),
        b.subrange(i, i + 32 * oms.len()) == ser_nodes(oms),
    ensures
        rd_nodes(b, i, oms.len() as nat) == Ok::<(Seq<Seq<u8>>, int), ParseError>((
            oms,
            i + 32 * oms.len(),
        )),
    decreases oms.len(),
{
    if oms.len() > 0 {
        lemma_ser_nodes_len(oms);
        let h = oms.first();
        let t = oms.drop_first();
        assert(nodes_ok(t)) by {
            assert forall|x: int| 0 <= x < t.len() implies (#[trigger] t[x]).len() == 32
                && is_canonical(t[x]) by {
                assert(t[x] == oms[x + 1]);
            }
        }
        lemma_ser_nodes_len(t);
        assert(b.subrange(i, i + 32) =~= h) by {
            assert forall|k: int| 0 <= k < 32 implies b.subrange(i, i + 32)[k] == h[k] by {
                assert(b[i + k] == ser_nodes(oms)[k]);
                assert(ser_nodes(oms)[k] == h[k]);
            }
        }
        assert(rd_node(b, i) == Ok::<(Seq<u8>, int), ParseError>((h, i + 32)));
        assert(b.subrange(i + 32, i + 32 + 32 * t.len()) =~= ser_nodes(t)) by {
            assert forall|k: int| 0 <= k < 32 * t.len() implies b.subrange(
                i + 32,
                i + 32 + 32 * t.len(),
            )[k] == ser_nodes(t)[k] by {
                assert(b[i + 32 + k] == ser_nodes(oms)[32 + k]);
                assert(ser_nodes(oms)[32 + k] == ser_nodes(t)[k]);
            }
        }
        lemma_nodes_read(b, i + 32, t);
        assert(seq![h] + t =~= oms);
    } else {
        assert(rd_nodes(b, i, 0) == Ok::<(Seq<Seq<u8>>, int), ParseError>((Seq::empty(), i)));
        assert(Seq::<Seq<u8>>::empty() =~= oms);
    }
}

/// Round-trip: parsing the serialization of any well-formed frontier yields
/// that frontier back, consuming the whole encoding.
#[verifier::rlimit(100)]
pub proof fn lemma_round_trip(m: FrontierModel)
    requires
        m.wf(),
    ensures
        parse_v1_spec(ser_v1(m), m.depth) == Ok::<(FrontierModel, int), ParseError>((
            m,
            ser_v1(m).len() as int,
        )),
{
    let b = ser_v1(m);
    match m.state {
        Option::None => {
            assert(b[0] == 0);
            assert(empty_model(m.depth) =~= m);
        },
        Option::Some(s) => {
            vstd::arithmetic::power2::lemma2_to64_rest();
            vstd::arithmetic::power2::lemma_pow2_strictly_increases(m.depth, 64);
            crate::bits::lemma_count_ones_bound(s.position, m.depth);
            let c = cs_bytes(s.position);
            let clen = c.len() as int;
            if s.position % 2 == 1 {
                assert(count_ones(s.position) >= 1);
                let tail = s.ommers.drop_first();
                let c2 = cs_bytes(tail.len() as nat);
                let c2len = c2.len() as int;
                assert(nodes_ok(tail)) by {
                    assert forall|x: int| 0 <= x < tail.len() implies (#[trigger] tail[x]).len()
                        == 32 && is_canonical(tail[x]) by {
                        assert(tail[x] == s.ommers[x + 1]);
                    }
                }
                lemma_ser_nodes_len(tail);
                let i2 = 1 + clen;
                let i3 = i2 + 32;
                let i4 = i3 + 1;
                let i5 = i4 + 32;
                let i6 = i5 + c2len;
                let i7 = i6 + 32 * tail.len();
                assert(b.len() == i7);
                assert(b[0] == 1);
                assert(b.subrange(1, 1 + clen) =~= c) by {
                    assert forall|k: int| 0 <= k < clen implies b.subrange(1, 1 + clen)[k]
                        == c[k] by {
                        assert(b[1 + k] == c[k]);
                    }
                }
                lemma_cs_read(b, 1, s.position);
                assert(b.subrange(i2, i2 + 32) =~= s.ommers[0]) by {
                    assert forall|k: int| 0 <= k < 32 implies b.subrange(i2, i2 + 32)[k]
                        == s.ommers[0][k] by {
                        assert(b[i2 + k] == s.ommers[0][k]);
                    }
                }
                assert(rd_node(b, i2) == Ok::<(Seq<u8>, int), ParseError>((s.ommers[0], i3)));
                assert(b[i3] == 1);
                assert(b.subrange(i4, i4 + 32) =~= s.leaf) by {
                    assert forall|k: int| 0 <= k < 32 implies b.subrange(i4, i4 + 32)[k]
                        == s.leaf[k] by {
                        assert(b[i4 + k] == s.leaf[k]);
                    }
                }
                assert(rd_node(b, i4) == Ok::<(Seq<u8>, int), ParseError>((s.leaf, i5)));
                assert(b.subrange(i5, i5 + c2len) =~= c2) by {
                    assert forall|k: int| 0 <= k < c2len implies b.subrange(i5, i5 + c2len)[k]
                        == c2[k] by {
                        assert(b[i5 + k] == c2[k]);
                    }
                }
                lemma_cs_read(b, i5, tail.len() as nat);
                assert(b.subrange(i6, i6 + 32 * tail.len()) =~= ser_nodes(tail)) by {
                    assert forall|k: int| 0 <= k < 32 * tail.len() implies b.subrange(
                        i6,
                        i6 + 32 * tail.len(),
                    )[k] == ser_nodes(tail)[k] by {
                        assert(b[i6 + k] == ser_nodes(tail)[k]);
                    }
                }
                lemma_nodes_read(b, i6, tail);
                assert(seq![s.ommers[0]] + tail =~= s.ommers);
                assert(finish_v1(m.depth, s.position, s.leaf, s.ommers, i7) == Ok::<
                    (FrontierModel, int),
                    ParseError,
                >((m, i7))) by {
                    assert(FrontierModel {
                        depth: m.depth,
                        state: Option::Some(NonEmptyModel {
                            position: s.position,
                            leaf: s.leaf,
                            ommers: s.ommers,
                        }),
                    } =~= m);
                }
            } else {
                let c2 = cs_bytes(s.ommers.len() as nat);
                let c2len = c2.len() as int;
                lemma_ser_nodes_len(s.ommers);
                let i2 = 1 + clen;
                let i3 = i2 + 32;
                let i4 = i3 + 1;
                let i5 = i4 + c2len;
                let i6 = i5 + 32 * s.ommers.len();
                assert(b.len() == i6);
                assert(b[0] == 1);
                assert(b.subrange(1, 1 + clen) =~= c) by {
                    assert forall|k: int| 0 <= k < clen implies b.subrange(1, 1 + clen)[k]
                        == c[k] by {
                        assert(b[1 + k] == c[k]);
                    }
                }
                lemma_cs_read(b, 1, s.position);
                assert(b.subrange(i2, i2 + 32) =~= s.leaf) by {
                    assert forall|k: int| 0 <= k < 32 implies b.subrange(i2, i2 + 32)[k]
                        == s.leaf[k] by {
                        assert(b[i2 + k] == s.leaf[k]);
                    }
                }
                assert(rd_node(b, i2) == Ok::<(Seq<u8>, int), ParseError>((s.leaf, i3)));
                assert(b[i3] == 0);
                assert(b.subrange(i4, i4 + c2len) =~= c2) by {
                    assert forall|k: int| 0 <= k < c2len implies b.subrange(i4, i4 + c2len)[k]
                        == c2[k] by {
                        assert(b[i4 + k] == c2[k]);
                    }
                }
                lemma_cs_read(b, i4, s.ommers.len() as nat);
                assert(b.subrange(i5, i5 + 32 * s.ommers.len()) =~= ser_nodes(s.ommers)) by {
                    assert forall|k: int| 0 <= k < 32 * s.ommers.len() implies b.subrange(
                        i5,
                        i5 + 32 * s.ommers.len(),
                    )[k] == ser_nodes(s.ommers)[k] by {
                        assert(b[i5 + k] == ser_nodes(s.ommers)[k]);
                    }
                }
                lemma_nodes_read(b, i5, s.ommers);
                assert(finish_v1(m.depth, s.position, s.leaf, s.ommers, i6) == Ok::<
                    (FrontierModel, int),
                    ParseError,
                >((m, i6))) by {
                    assert(FrontierModel {
                        depth: m.depth,
                        state: Option::Some(NonEmptyModel {
                            position: s.position,
                            leaf: s.leaf,
                            ommers: s.ommers,
                        }),
                    } =~= m);
                }
            }
        },
    }
}

} // verus!
