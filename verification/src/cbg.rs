//! The CBG (CompressedBG___) image codec: a keystream-decrypted weight
//! table drives a Huffman decode of intermediate bytes, which a
//! zero-run expansion, a 2D predictor and a channel reorder turn into
//! RGBA rows.

use vstd::prelude::*;
use crate::decrypt::{spec_le16, spec_le32, keystream_sub};
use crate::bse::{sum8, xor8};
use crate::error::ArcError;

verus! {

/// One node of the weight-pairing tree. Leaves are the 256 byte
/// symbols; parents pair the two lightest live nodes.
#[derive(Clone, Copy, PartialEq, Eq, Structural, Debug)]
pub struct NodeCBG {
    /// Whether the node still takes part in the pairing.
    pub valid: bool,
    /// The node's weight: a leaf's table weight or the children's sum.
    pub weight: u32,
    /// Whether the node is an internal node.
    pub is_parent: bool,
    /// The paired parent, once consumed (`u32::MAX` before).
    pub parent: u32,
    /// Index of the child taken on a 0 bit (for a leaf: its symbol).
    pub child0: u32,
    /// Index of the child taken on a 1 bit (for a leaf: its symbol).
    pub child1: u32,
}

impl NodeCBG {
    /// A fresh, empty node.
    pub fn new() -> (r: NodeCBG)
        ensures
            r == (NodeCBG {
                valid: false,
                weight: 0,
                is_parent: false,
                parent: 0,
                child0: 0,
                child1: 0,
            }),
    {
        NodeCBG { valid: false, weight: 0, is_parent: false, parent: 0, child0: 0, child1: 0 }
    }
}

/// The bytes of `"CompressedBG___"`.
pub open spec fn cbg_magic() -> Seq<u8> {
    seq![
        0x43u8,
        0x6Fu8,
        0x6Du8,
        0x70u8,
        0x72u8,
        0x65u8,
        0x73u8,
        0x73u8,
        0x65u8,
        0x64u8,
        0x42u8,
        0x47u8,
        0x5Fu8,
        0x5Fu8,
        0x5Fu8,
    ]
}

/// Whether a blob announces the CBG codec: a minimum size and the magic.
pub open spec fn spec_is_valid(s: Seq<u8>, size: u32) -> bool {
    size >= 48 && s.subrange(0, 15) == cbg_magic()
}

/// Whether `data` announces the CBG codec.
pub fn is_valid(data: &Vec<u8>, size: u32) -> (r: bool)
    requires
        data@.len() >= size,
    ensures
        r == spec_is_valid(data@, size),
{
    if size < 48 {
        return false;
    }
    let magic: [u8; 15] = [
        0x43,
        0x6F,
        0x6D,
        0x70,
        0x72,
        0x65,
        0x73,
        0x73,
        0x65,
        0x64,
        0x42,
        0x47,
        0x5F,
        0x5F,
        0x5F,
    ];
    let mut i: usize = 0;
    let mut ok = true;
    while i < 15
        invariant
            i <= 15,
            data@.len() >= 48,
            magic@ == cbg_magic(),
            ok == (forall|j: int| 0 <= j < i ==> data@[j] == cbg_magic()[j]),
        decreases 15 - i,
    {
        if data[i] != magic[i] {
            ok = false;
        }
        i = i + 1;
    }
    proof {
        if ok {
            assert(data@.subrange(0, 15) =~= cbg_magic());
        } else {
            assert(data@.subrange(0, 15) != cbg_magic()) by {
                let j = choose|j: int| 0 <= j < 15 && data@[j] != cbg_magic()[j];
                assert(data@.subrange(0, 15)[j] == data@[j]);
            }
        }
    }
    ok
}

/// Little-endian base-128 decoding from `pos`, with `acc` already
/// holding the lower groups scaled by `mult`. `None` on end of input or
/// a shift reaching 32 while a continuation bit is still set.
pub open spec fn varint_rec(s: Seq<u8>, pos: int, shift: int, mult: int, acc: int) -> Option<
    (u32, int),
>
    decreases 39 - shift,
{
    if shift >= 32 || shift < 0 {
        None
    } else if pos < 0 || pos >= s.len() {
        None
    } else {
        let c = s[pos];
        let acc2 = (acc + (c % 128) * mult) % 0x1_0000_0000;
        if c < 128 {
            Some((acc2 as u32, pos + 1))
        } else {
            varint_rec(s, pos + 1, shift + 7, mult * 128, acc2)
        }
    }
}

/// The group multiplier `2^shift` for the five varint shifts.
pub open spec fn mult7(shift: int) -> int {
    if shift == 0 {
        1
    } else if shift == 7 {
        0x80
    } else if shift == 14 {
        0x4000
    } else if shift == 21 {
        0x20_0000
    } else {
        0x1000_0000
    }
}

/// The varint stored at `pos` of `s` and the position after it.
pub open spec fn spec_varint(s: Seq<u8>, pos: int) -> Option<(u32, int)> {
    varint_rec(s, pos, 0, 1, 0)
}

/// A decoded varint sits strictly between `pos` and the end.
pub proof fn lemma_varint_advances(s: Seq<u8>, pos: int, shift: int, mult: int, acc: int)
    requires
        varint_rec(s, pos, shift, mult, acc) is Some,
    ensures
        pos < varint_rec(s, pos, shift, mult, acc).unwrap().1 <= s.len(),
    decreases 39 - shift,
{
    let c = s[pos];
    if c >= 128 {
        lemma_varint_advances(s, pos + 1, shift + 7, mult * 128, (acc + (c % 128) * mult)
            % 0x1_0000_0000);
    }
}

/// Reads a varint at `*pos`, advancing the cursor past it.
pub fn read_variable(data: &Vec<u8>, pos: &mut usize) -> (r: Result<u32, ArcError>)
    ensures
        match r {
            Ok(v) => spec_varint(data@, *old(pos) as int) == Some((v, *final(pos) as int))
                && *old(pos) < *final(pos) <= data@.len(),
            Err(e) => spec_varint(data@, *old(pos) as int) is None && e == ArcError::InvalidFormat
                && *final(pos) == *old(pos),
        },
{
    let ghost p0 = *pos as int;
    let n = data.len();
    let mut p = *pos;
    let mut shift: u32 = 0;
    let mut mult: u64 = 1;
    let mut acc: u64 = 0;
    loop
        invariant
            n == data@.len(),
            p0 == *old(pos),
            p0 <= p,
            *pos == p0,
            varint_rec(data@, p as int, shift as int, mult as int, acc as int) == spec_varint(
                data@,
                p0,
            ),
            shift <= 28,
            shift % 7 == 0,
            mult == mult7(shift as int),
            acc < 0x1_0000_0000,
            mult <= 0x1000_0000,
        decreases 32 - shift,
    {
        if p >= n {
            proof {
                assert(varint_rec(data@, p as int, shift as int, mult as int, acc as int)
                    is None);
            }
            return Err(ArcError::InvalidFormat);
        }
        let c = data[p];
        proof {
            assert((c as u64 % 128) * mult <= 127 * 0x1000_0000) by (nonlinear_arith)
                requires
                    c as u64 % 128 <= 127,
                    mult <= 0x1000_0000,
            ;
        }
        let acc2 = ((acc + (c as u64 % 128) * mult) % 0x1_0000_0000);
        if c < 128 {
            proof {
                assert(varint_rec(data@, p as int, shift as int, mult as int, acc as int)
                    == Some((((acc + (c % 128) as u64 * mult) % 0x1_0000_0000) as u32, p as int
                    + 1)));
                lemma_varint_advances(data@, p0, 0, 1, 0);
            }
            *pos = p + 1;
            return Ok(acc2 as u32);
        }
        if shift + 7 >= 32 {
            proof {
                assert(varint_rec(
                    data@,
                    p as int + 1,
                    shift as int + 7,
                    mult as int * 128,
                    acc2 as int,
                ) is None);
                assert(varint_rec(data@, p as int, shift as int, mult as int, acc as int)
                    is None);
            }
            return Err(ArcError::InvalidFormat);
        }
        acc = acc2;
        mult = mult * 128;
        shift = shift + 7;
        p = p + 1;
    }
}

/// The shortest little-endian base-128 encoding of `v`.
pub open spec fn spec_varint_encode(v: int) -> Seq<u8>
    decreases v,
{
    if v < 128 {
        seq![(if v >= 0 {
            v
        } else {
            0
        }) as u8]
    } else {
        seq![(v % 128 + 128) as u8] + spec_varint_encode(v / 128)
    }
}

/// Encodes `v` as a varint.
pub fn encode_variable(v: u32) -> (r: Vec<u8>)
    ensures
        r@ == spec_varint_encode(v as int),
{
    let mut r: Vec<u8> = Vec::new();
    let mut x = v;
    loop
        invariant
            spec_varint_encode(v as int) == r@ + spec_varint_encode(x as int),
        decreases x,
    {
        if x < 128 {
            r.push(x as u8);
            proof {
                assert(spec_varint_encode(v as int) =~= r@);
            }
            return r;
        }
        r.push((x % 128 + 128) as u8);
        x = x / 128;
        proof {
            assert(spec_varint_encode(v as int) =~= r@ + spec_varint_encode(x as int));
        }
    }
}

/// Decoding an encoded value from any position recovers it, threading
/// the accumulated lower groups.
proof fn lemma_varint_rt(s: Seq<u8>, pos: int, shift: int, mult: int, acc: int, v: int)
    requires
        0 <= pos,
        0 <= v,
        0 <= acc,
        shift % 7 == 0,
        0 <= shift <= 28,
        mult == mult7(shift),
        acc < mult,
        v * mult + acc < 0x1_0000_0000,
        pos + spec_varint_encode(v).len() <= s.len(),
        s.subrange(pos, pos + spec_varint_encode(v).len() as int) == spec_varint_encode(v),
    ensures
        varint_rec(s, pos, shift, mult, acc) == Some(
            ((acc + v * mult) as u32, pos + spec_varint_encode(v).len()),
        ),
    decreases v,
{
    let enc = spec_varint_encode(v);
    assert(s[pos] == enc[0]) by {
        assert(s.subrange(pos, pos + enc.len() as int)[0] == s[pos]);
    }
    assert(mult >= 1);
    if v < 128 {
        assert(enc == seq![(v) as u8]);
        assert(s[pos] == v);
        assert(v * mult == (s[pos] % 128) * mult) by (nonlinear_arith)
            requires
                s[pos] == v,
                0 <= v < 128,
        ;
        vstd::arithmetic::div_mod::lemma_small_mod((acc + v * mult) as nat, 0x1_0000_0000nat);
    } else {
        assert(enc == seq![(v % 128 + 128) as u8] + spec_varint_encode(v / 128));
        assert(s[pos] == v % 128 + 128);
        assert(s[pos] % 128 == v % 128 && s[pos] >= 128);
        assert((v % 128) * mult <= v * mult && 0 <= (v % 128) * mult) by (nonlinear_arith)
            requires
                0 <= v % 128 <= v,
                mult >= 1,
        ;
        vstd::arithmetic::div_mod::lemma_small_mod(
            (acc + (v % 128) * mult) as nat,
            0x1_0000_0000nat,
        );
        let acc2 = acc + (v % 128) * mult;
        // the shift cannot be at its cap: the value would not fit
        assert(shift <= 21) by {
            if shift == 28 {
                assert(mult == 0x1000_0000);
                assert(v * 0x1000_0000 >= 128 * 0x1000_0000) by (nonlinear_arith)
                    requires
                        v >= 128,
                ;
            }
        }
        assert(mult * 128 == mult7(shift + 7));
        assert(acc2 < mult * 128) by (nonlinear_arith)
            requires
                acc < mult,
                acc2 == acc + (v % 128) * mult,
                v % 128 < 128,
                mult >= 1,
        ;
        assert((v / 128) * (mult * 128) + acc2 == v * mult + acc) by (nonlinear_arith)
            requires
                acc2 == acc + (v % 128) * mult,
                v >= 0,
                v == 128 * (v / 128) + v % 128,
        ;
        let enc2 = spec_varint_encode(v / 128);
        assert(s.subrange(pos + 1, pos + 1 + enc2.len() as int) =~= enc2) by {
            assert forall|j: int| 0 <= j < enc2.len() implies s[pos + 1 + j] == enc2[j] by {
                assert(s.subrange(pos, pos + enc.len() as int)[1 + j] == s[pos + 1 + j]);
                assert(enc[1 + j] == enc2[j]);
            }
        }
        lemma_varint_rt(s, pos + 1, shift + 7, mult * 128, acc2, v / 128);
    }
}

/// Encoding any 32-bit value and decoding the bytes back yields the
/// value again, consuming exactly the encoding.
pub proof fn lemma_varint_round_trip(v: u32)
    ensures
        spec_varint(spec_varint_encode(v as int), 0) == Some(
            (v, spec_varint_encode(v as int).len() as int),
        ),
{
    let enc = spec_varint_encode(v as int);
    assert(enc.subrange(0, enc.len() as int) =~= enc);
    lemma_varint_rt(enc, 0, 0, 1, 0, v as int);
}

/// Continuation bytes all the way to the shift cap force a rejection.
proof fn lemma_overlong_rec(s: Seq<u8>, pos: int, shift: int, mult: int, acc: int)
    requires
        0 <= pos,
        shift % 7 == 0,
        0 <= shift <= 28,
        pos + (5 - shift / 7) <= s.len(),
        forall|j: int| 0 <= j < 5 - shift / 7 ==> #[trigger] s[pos + j] >= 128,
    ensures
        varint_rec(s, pos, shift, mult, acc) is None,
    decreases 32 - shift,
{
    assert(s[pos + 0] >= 128);
    if shift <= 21 {
        assert forall|j: int| 0 <= j < 5 - (shift + 7) / 7 implies #[trigger] s[pos + 1 + j]
            >= 128 by {
            assert(s[pos + (j + 1)] >= 128);
        }
        lemma_overlong_rec(
            s,
            pos + 1,
            shift + 7,
            mult * 128,
            (acc + (s[pos] % 128) * mult) % 0x1_0000_0000,
        );
    }
}

/// Five continuation bytes in a row are rejected: the shift reaches 32
/// before any group ends the number.
pub proof fn lemma_varint_overlong(s: Seq<u8>, pos: int)
    requires
        0 <= pos,
        pos + 5 <= s.len(),
        forall|j: int| 0 <= j < 5 ==> #[trigger] s[pos + j] >= 128,
    ensures
        spec_varint(s, pos) is None,
{
    lemma_overlong_rec(s, pos, 0, 1, 0);
}

/// The keystream is a function of its seed alone: equal seeds give
/// identical keystreams, so two decryptions of the same bytes agree.
pub proof fn lemma_keystream_deterministic(seed1: u32, seed2: u32, n: nat)
    requires
        seed1 == seed2,
    ensures
        crate::decrypt::hash_state(seed1, n) == crate::decrypt::hash_state(seed2, n),
        crate::decrypt::keystream_byte(seed1, n) == crate::decrypt::keystream_byte(seed2, n),
{
}

/// The sum of the first `k` weights of the table.
pub open spec fn sum_weights(table: Seq<u32>, k: int) -> int
    decreases k,
{
    if k <= 0 {
        0
    } else {
        sum_weights(table, k - 1) + table[k - 1]
    }
}

/// The 511-node pool before pairing: one leaf per byte symbol (live
/// exactly when its weight is positive), then empty parent slots.
pub open spec fn init_cbg_nodes(table: Seq<u32>) -> Seq<NodeCBG> {
    Seq::new(
        511,
        |n: int|
            if n < 256 {
                NodeCBG {
                    valid: table[n] > 0,
                    weight: table[n],
                    is_parent: false,
                    parent: u32::MAX,
                    child0: n as u32,
                    child1: n as u32,
                }
            } else {
                NodeCBG {
                    valid: false,
                    weight: 0,
                    is_parent: true,
                    parent: u32::MAX,
                    child0: u32::MAX,
                    child1: u32::MAX,
                }
            },
    )
}

/// The index of the lightest live node in `nodes[..c]` (first one wins
/// ties), scanning from `k` with the best seen so far; `u32::MAX` when
/// none beats `bestw`.
pub open spec fn min_valid(nodes: Seq<NodeCBG>, c: int, k: int, best: u32, bestw: u32) -> (
    u32,
    u32,
)
    decreases c - k,
{
    if k < 0 || k >= c || c > nodes.len() {
        (best, bestw)
    } else {
        if nodes[k].valid && nodes[k].weight < bestw {
            min_valid(nodes, c, k + 1, k as u32, nodes[k].weight)
        } else {
            min_valid(nodes, c, k + 1, best, bestw)
        }
    }
}

/// A node with `valid` cleared and its parent recorded.
pub open spec fn consumed(n: NodeCBG, parent: int) -> NodeCBG {
    NodeCBG {
        valid: false,
        weight: n.weight,
        is_parent: n.is_parent,
        parent: parent as u32,
        child0: n.child0,
        child1: n.child1,
    }
}

/// One pairing round per recursion: the two lightest live nodes are
/// consumed and replaced by a live parent whose weight is their sum;
/// the pairing ends when that sum reaches the whole table's weight.
/// `None` when no live node remains, a sum overflows, or the pool or
/// the fuel runs out.
pub open spec fn pair_loop(nodes: Seq<NodeCBG>, cnodes: int, sum: u32, fuel: nat) -> Option<
    (Seq<NodeCBG>, u32),
>
    decreases fuel,
{
    if fuel == 0 {
        None
    } else {
        let s0 = min_valid(nodes, cnodes, 0, u32::MAX, u32::MAX);
        if s0.0 == u32::MAX {
            None
        } else {
            let nodes1 = nodes.update(s0.0 as int, consumed(nodes[s0.0 as int], cnodes));
            let s1 = min_valid(nodes1, cnodes, 0, u32::MAX, u32::MAX);
            let nodes2 = if s1.0 != u32::MAX {
                nodes1.update(s1.0 as int, consumed(nodes1[s1.0 as int], cnodes))
            } else {
                nodes1
            };
            let w = nodes[s0.0 as int].weight + (if s1.0 != u32::MAX {
                nodes1[s1.0 as int].weight as int
            } else {
                0int
            });
            if w > u32::MAX || cnodes >= 511 {
                None
            } else {
                let parent = NodeCBG {
                    valid: true,
                    weight: w as u32,
                    is_parent: true,
                    parent: u32::MAX,
                    child0: s0.0,
                    child1: s1.0,
                };
                let nodes3 = nodes2.update(cnodes, parent);
                if w == sum {
                    Some((nodes3, cnodes as u32))
                } else {
                    pair_loop(nodes3, cnodes + 1, sum, (fuel - 1) as nat)
                }
            }
        }
    }
}

/// The pairing tree of a weight table: `None` when the weights sum
/// past 32 bits or the pairing cannot finish.
pub open spec fn spec_method2(table: Seq<u32>) -> Option<(Seq<NodeCBG>, u32)> {
    if sum_weights(table, 256) > u32::MAX {
        None
    } else {
        pair_loop(init_cbg_nodes(table), 256, sum_weights(table, 256) as u32, 256)
    }
}

/// The index of the lightest live node in `nodes[..c]`.
fn scan_min(nodes: &Vec<NodeCBG>, c: usize) -> (r: (u32, u32))
    requires
        c <= nodes@.len(),
        c <= 511,
    ensures
        r == min_valid(nodes@, c as int, 0, u32::MAX, u32::MAX),
        r.0 == u32::MAX || r.0 < c,
{
    let mut best: u32 = u32::MAX;
    let mut bestw: u32 = u32::MAX;
    let mut k: usize = 0;
    while k < c
        invariant
            k <= c <= nodes@.len(),
            c <= 511,
            best == u32::MAX || best < k,
            min_valid(nodes@, c as int, k as int, best, bestw) == min_valid(
                nodes@,
                c as int,
                0,
                u32::MAX,
                u32::MAX,
            ),
        decreases c - k,
    {
        if nodes[k].valid && nodes[k].weight < bestw {
            best = k as u32;
            bestw = nodes[k].weight;
        }
        k = k + 1;
    }
    (best, bestw)
}

/// Builds the weight-pairing tree for a 256-entry table, returning the
/// node pool and the root's index.
pub fn method2(table1: &Vec<u32>) -> (r: Result<(Vec<NodeCBG>, u32), ArcError>)
    requires
        table1@.len() == 256,
    ensures
        match r {
            Ok(t) => spec_method2(table1@) == Some((t.0@, t.1)) && t.0@.len() == 511 && 256 <= t.1
                < 511,
            Err(e) => spec_method2(table1@) is None && e == ArcError::CbgDecryptError,
        },
{
    // total weight, with the overflow guarded
    let mut sum64: u64 = 0;
    let mut k: usize = 0;
    while k < 256
        invariant
            k <= 256,
            table1@.len() == 256,
            sum64 == sum_weights(table1@, k as int),
            sum64 <= k * 0xFFFF_FFFF,
        decreases 256 - k,
    {
        proof {
            assert((k + 1) * 0xFFFF_FFFF == k * 0xFFFF_FFFF + 0xFFFF_FFFF) by (nonlinear_arith);
        }
        sum64 = sum64 + table1[k] as u64;
        k = k + 1;
    }
    if sum64 > 0xFFFF_FFFF {
        return Err(ArcError::CbgDecryptError);
    }
    let sum = sum64 as u32;
    // the initial pool: 256 leaves, 255 parent slots
    let mut nodes: Vec<NodeCBG> = Vec::new();
    let mut z: usize = 0;
    while z < 511
        invariant
            z <= 511,
            table1@.len() == 256,
            nodes@.len() == z,
            forall|j: int| 0 <= j < z ==> nodes@[j] == init_cbg_nodes(table1@)[j],
        decreases 511 - z,
    {
        if z < 256 {
            let w = table1[z];
            nodes.push(
                NodeCBG {
                    valid: w > 0,
                    weight: w,
                    is_parent: false,
                    parent: u32::MAX,
                    child0: z as u32,
                    child1: z as u32,
                },
            );
        } else {
            nodes.push(
                NodeCBG {
                    valid: false,
                    weight: 0,
                    is_parent: true,
                    parent: u32::MAX,
                    child0: u32::MAX,
                    child1: u32::MAX,
                },
            );
        }
        z = z + 1;
    }
    proof {
        assert(nodes@ =~= init_cbg_nodes(table1@));
    }
    let mut cnodes: usize = 256;
    let mut fuel: u32 = 256;
    loop
        invariant
            256 <= cnodes <= 511,
            nodes@.len() == 511,
            table1@.len() == 256,
            sum == sum_weights(table1@, 256),
            pair_loop(nodes@, cnodes as int, sum, fuel as nat) == spec_method2(table1@),
        decreases fuel,
    {
        if fuel == 0 {
            return Err(ArcError::CbgDecryptError);
        }
        let s0 = scan_min(&nodes, cnodes);
        if s0.0 == u32::MAX {
            return Err(ArcError::CbgDecryptError);
        }
        let i0 = s0.0 as usize;
        let n0 = nodes[i0];
        nodes[i0] = NodeCBG {
            valid: false,
            weight: n0.weight,
            is_parent: n0.is_parent,
            parent: cnodes as u32,
            child0: n0.child0,
            child1: n0.child1,
        };
        let s1 = scan_min(&nodes, cnodes);
        let w1: u64 = if s1.0 != u32::MAX {
            let i1 = s1.0 as usize;
            let n1 = nodes[i1];
            nodes[i1] = NodeCBG {
                valid: false,
                weight: n1.weight,
                is_parent: n1.is_parent,
                parent: cnodes as u32,
                child0: n1.child0,
                child1: n1.child1,
            };
            n1.weight as u64
        } else {
            0
        };
        let w: u64 = n0.weight as u64 + w1;
        if w > 0xFFFF_FFFF || cnodes >= 511 {
            return Err(ArcError::CbgDecryptError);
        }
        let parent = NodeCBG {
            valid: true,
            weight: w as u32,
            is_parent: true,
            parent: u32::MAX,
            child0: s0.0,
            child1: s1.0,
        };
        nodes[cnodes] = parent;
        if w as u32 == sum {
            return Ok((nodes, cnodes as u32));
        }
        cnodes = cnodes + 1;
        fuel = fuel - 1;
    }
}

/// A scan result is either the sentinel or an index below `c`.
proof fn lemma_min_valid_bound(nodes: Seq<NodeCBG>, c: int, k: int, best: u32, bestw: u32)
    requires
        best == u32::MAX || best < c,
        c <= 511,
    ensures
        min_valid(nodes, c, k, best, bestw).0 == u32::MAX || min_valid(
            nodes,
            c,
            k,
            best,
            bestw,
        ).0 < c,
    decreases c - k,
{
    if !(k < 0 || k >= c || c > nodes.len()) {
        if nodes[k].valid && nodes[k].weight < bestw {
            lemma_min_valid_bound(nodes, c, k + 1, k as u32, nodes[k].weight);
        } else {
            lemma_min_valid_bound(nodes, c, k + 1, best, bestw);
        }
    }
}

/// The pairing ends only on a parent carrying the declared sum, so the
/// root of a built tree weighs exactly the sum of all table weights.
pub proof fn lemma_pair_loop_root(nodes: Seq<NodeCBG>, cnodes: int, sum: u32, fuel: nat)
    requires
        pair_loop(nodes, cnodes, sum, fuel) is Some,
        nodes.len() == 511,
        256 <= cnodes <= 511,
    ensures
        ({
            let t = pair_loop(nodes, cnodes, sum, fuel).unwrap();
            &&& t.0.len() == 511
            &&& 256 <= t.1 < 511
            &&& t.0[t.1 as int].weight == sum
            &&& t.0[t.1 as int].is_parent
        }),
    decreases fuel,
{
    let s0 = min_valid(nodes, cnodes, 0, u32::MAX, u32::MAX);
    lemma_min_valid_bound(nodes, cnodes, 0, u32::MAX, u32::MAX);
    let nodes1 = nodes.update(s0.0 as int, consumed(nodes[s0.0 as int], cnodes));
    let s1 = min_valid(nodes1, cnodes, 0, u32::MAX, u32::MAX);
    lemma_min_valid_bound(nodes1, cnodes, 0, u32::MAX, u32::MAX);
    let nodes2 = if s1.0 != u32::MAX {
        nodes1.update(s1.0 as int, consumed(nodes1[s1.0 as int], cnodes))
    } else {
        nodes1
    };
    let w = nodes[s0.0 as int].weight + (if s1.0 != u32::MAX {
        nodes1[s1.0 as int].weight as int
    } else {
        0int
    });
    let parent = NodeCBG {
        valid: true,
        weight: w as u32,
        is_parent: true,
        parent: u32::MAX,
        child0: s0.0,
        child1: s1.0,
    };
    let nodes3 = nodes2.update(cnodes, parent);
    if w == sum {
    } else {
        lemma_pair_loop_root(nodes3, cnodes + 1, sum, (fuel - 1) as nat);
    }
}

/// Weight sums are non-negative.
proof fn lemma_sum_weights_nonneg(table: Seq<u32>, k: int)
    ensures
        sum_weights(table, k) >= 0,
    decreases k,
{
    if k > 0 {
        lemma_sum_weights_nonneg(table, k - 1);
    }
}

/// The root of the weight tree carries the sum of all weights.
pub proof fn lemma_method2_root_weight(table: Seq<u32>)
    requires
        table.len() == 256,
        spec_method2(table) is Some,
    ensures
        ({
            let t = spec_method2(table).unwrap();
            t.0[t.1 as int].weight == sum_weights(table, 256)
        }),
{
    lemma_sum_weights_nonneg(table, 256);
    lemma_pair_loop_root(
        init_cbg_nodes(table),
        256,
        sum_weights(table, 256) as u32,
        256,
    );
}

/// Whether node `t` can be reached from node `from` along child edges
/// (which strictly descend in a built tree).
pub open spec fn reachable(nodes: Seq<NodeCBG>, from: int, t: int) -> bool
    decreases from,
{
    if !(0 <= from < nodes.len()) {
        false
    } else if from == t {
        true
    } else if !nodes[from].is_parent {
        false
    } else {
        let c0 = nodes[from].child0 as int;
        let c1 = nodes[from].child1 as int;
        (0 <= c0 < from && reachable(nodes, c0, t)) || (0 <= c1 < from && reachable(
            nodes,
            c1,
            t,
        ))
    }
}

/// The summed weight of the live nodes among the first `c`.
pub open spec fn sum_valid(nodes: Seq<NodeCBG>, c: int) -> int
    decreases c,
{
    if c <= 0 {
        0
    } else {
        sum_valid(nodes, c - 1) + if 0 <= c - 1 < nodes.len() && nodes[c - 1].valid {
            nodes[c - 1].weight as int
        } else {
            0
        }
    }
}

/// Reachability from `from` ignores changes at indices above `from`:
/// paths only descend.
proof fn lemma_reach_update_high(nodes: Seq<NodeCBG>, from: int, t: int, u: int, val: NodeCBG)
    requires
        from < u < nodes.len(),
    ensures
        reachable(nodes.update(u, val), from, t) == reachable(nodes, from, t),
    decreases from,
{
    let nodes2 = nodes.update(u, val);
    if 0 <= from < nodes.len() && from != t && nodes[from].is_parent {
        let c0 = nodes[from].child0 as int;
        let c1 = nodes[from].child1 as int;
        if 0 <= c0 < from {
            lemma_reach_update_high(nodes, c0, t, u, val);
        }
        if 0 <= c1 < from {
            lemma_reach_update_high(nodes, c1, t, u, val);
        }
    }
}

/// Consuming a node keeps every reachability fact: only its live flag
/// and parent pointer change, never its children.
proof fn lemma_reach_consumed(nodes: Seq<NodeCBG>, from: int, t: int, w: int, p: int)
    requires
        0 <= w < nodes.len(),
    ensures
        reachable(nodes.update(w, consumed(nodes[w], p)), from, t) == reachable(nodes, from, t),
    decreases from,
{
    let nodes2 = nodes.update(w, consumed(nodes[w], p));
    if 0 <= from < nodes.len() && from != t && nodes2[from].is_parent {
        let c0 = nodes2[from].child0 as int;
        let c1 = nodes2[from].child1 as int;
        if 0 <= c0 < from {
            lemma_reach_consumed(nodes, c0, t, w, p);
        }
        if 0 <= c1 < from {
            lemma_reach_consumed(nodes, c1, t, w, p);
        }
    } else if 0 <= from < nodes.len() && from != t && nodes[from].is_parent {
        let c0 = nodes[from].child0 as int;
        let c1 = nodes[from].child1 as int;
        if 0 <= c0 < from {
            lemma_reach_consumed(nodes, c0, t, w, p);
        }
        if 0 <= c1 < from {
            lemma_reach_consumed(nodes, c1, t, w, p);
        }
    }
}

/// The scan lands on a live node (or the sentinel), and reports its
/// weight.
proof fn lemma_min_valid_props(nodes: Seq<NodeCBG>, c: int, k: int, best: u32, bestw: u32)
    requires
        c <= nodes.len(),
        c <= 511,
        best == u32::MAX || (best < c && nodes[best as int].valid && nodes[best as int].weight
            == bestw),
    ensures
        ({
            let r = min_valid(nodes, c, k, best, bestw);
            r.0 == u32::MAX || (r.0 < c && nodes[r.0 as int].valid && nodes[r.0 as int].weight
                == r.1)
        }),
    decreases c - k,
{
    if !(k < 0 || k >= c || c > nodes.len()) {
        if nodes[k].valid && nodes[k].weight < bestw {
            lemma_min_valid_props(nodes, c, k + 1, k as u32, nodes[k].weight);
        } else {
            lemma_min_valid_props(nodes, c, k + 1, best, bestw);
        }
    }
}

/// Consuming a live node below `c` takes its weight out of the sum.
proof fn lemma_sum_valid_consume(nodes: Seq<NodeCBG>, c: int, w: int, p: int)
    requires
        0 <= w < c <= nodes.len(),
        nodes[w].valid,
    ensures
        sum_valid(nodes.update(w, consumed(nodes[w], p)), c) == sum_valid(nodes, c)
            - nodes[w].weight,
    decreases c,
{
    if w == c - 1 {
        assert(sum_valid(nodes.update(w, consumed(nodes[w], p)), c - 1) == sum_valid(
            nodes,
            c - 1,
        )) by {
            lemma_sum_valid_update_above(nodes, c - 1, w, consumed(nodes[w], p));
        }
    } else {
        lemma_sum_valid_consume(nodes, c - 1, w, p);
    }
}

/// Writing at or above `c` leaves the prefix sum alone.
proof fn lemma_sum_valid_update_above(nodes: Seq<NodeCBG>, c: int, u: int, val: NodeCBG)
    requires
        c <= u < nodes.len(),
    ensures
        sum_valid(nodes.update(u, val), c) == sum_valid(nodes, c),
    decreases c,
{
    if c > 0 {
        lemma_sum_valid_update_above(nodes, c - 1, u, val);
    }
}

/// The sum of live weights is at least any single live weight.
proof fn lemma_sum_valid_single(nodes: Seq<NodeCBG>, c: int, a: int)
    requires
        0 <= a < c <= nodes.len(),
        nodes[a].valid,
    ensures
        sum_valid(nodes, c) >= nodes[a].weight,
    decreases c,
{
    lemma_sum_valid_nonneg(nodes, c - 1);
    if a < c - 1 {
        lemma_sum_valid_single(nodes, c - 1, a);
    }
}

/// Live-weight sums are never negative.
proof fn lemma_sum_valid_nonneg(nodes: Seq<NodeCBG>, c: int)
    ensures
        sum_valid(nodes, c) >= 0,
    decreases c,
{
    if c > 0 {
        lemma_sum_valid_nonneg(nodes, c - 1);
    }
}

/// The sum of live weights is at least any two distinct live weights.
proof fn lemma_sum_valid_pair(nodes: Seq<NodeCBG>, c: int, a: int, b: int)
    requires
        0 <= a < c <= nodes.len(),
        0 <= b < c,
        a != b,
        nodes[a].valid,
        nodes[b].valid,
    ensures
        sum_valid(nodes, c) >= nodes[a].weight + nodes[b].weight,
    decreases c,
{
    if a == c - 1 {
        lemma_sum_valid_single(nodes, c - 1, b);
    } else if b == c - 1 {
        lemma_sum_valid_single(nodes, c - 1, a);
    } else {
        lemma_sum_valid_pair(nodes, c - 1, a, b);
    }
}

/// Every target reachable from some live node before a pairing round
/// is reachable from the round's survivor: the pairing only reparents
/// live subtrees, and the final parent's weight equals the whole live
/// sum, so nothing is left behind.
#[verifier::rlimit(100)]
#[verifier::spinoff_prover]
proof fn lemma_pair_loop_reach(nodes: Seq<NodeCBG>, cnodes: int, sum: u32, fuel: nat, t: int)
    requires
        pair_loop(nodes, cnodes, sum, fuel) is Some,
        nodes.len() == 511,
        256 <= cnodes <= 511,
        sum_valid(nodes, cnodes) == sum,
        forall|v: int| 0 <= v < cnodes && nodes[v].valid ==> (#[trigger] nodes[v].weight) > 0,
        exists|v: int| 0 <= v < cnodes && nodes[v].valid && #[trigger] reachable(nodes, v, t),
    ensures
        ({
            let r = pair_loop(nodes, cnodes, sum, fuel).unwrap();
            reachable(r.0, r.1 as int, t)
        }),
    decreases fuel,
{
    let s0 = min_valid(nodes, cnodes, 0, u32::MAX, u32::MAX);
    lemma_min_valid_bound(nodes, cnodes, 0, u32::MAX, u32::MAX);
    lemma_min_valid_props(nodes, cnodes, 0, u32::MAX, u32::MAX);
    let v0 = s0.0 as int;
    let nodes1 = nodes.update(v0, consumed(nodes[v0], cnodes));
    let s1 = min_valid(nodes1, cnodes, 0, u32::MAX, u32::MAX);
    lemma_min_valid_bound(nodes1, cnodes, 0, u32::MAX, u32::MAX);
    lemma_min_valid_props(nodes1, cnodes, 0, u32::MAX, u32::MAX);
    let v1 = s1.0 as int;
    let two = s1.0 != u32::MAX;
    let nodes2 = if two {
        nodes1.update(v1, consumed(nodes1[v1], cnodes))
    } else {
        nodes1
    };
    let w0 = nodes[v0].weight as int;
    let w1 = if two {
        nodes1[v1].weight as int
    } else {
        0int
    };
    let w = w0 + w1;
    let parent = NodeCBG {
        valid: true,
        weight: w as u32,
        is_parent: true,
        parent: u32::MAX,
        child0: s0.0,
        child1: s1.0,
    };
    let nodes3 = nodes2.update(cnodes, parent);
    // the pairing did not run out of pool or range (it returned Some)
    assert(s0.0 != u32::MAX && w <= u32::MAX && cnodes < 511);
    // the consumed nodes are distinct live nodes
    assert(two ==> v1 != v0 && nodes1[v1].valid && nodes[v1].valid && nodes[v1].weight == w1);
    // live-weight bookkeeping across the three writes
    lemma_sum_valid_consume(nodes, cnodes, v0, cnodes);
    if two {
        lemma_sum_valid_consume(nodes1, cnodes, v1, cnodes);
    }
    lemma_sum_valid_update_above(nodes2, cnodes, cnodes, parent);
    assert(sum_valid(nodes3, cnodes + 1) == sum_valid(nodes3, cnodes) + w);
    assert(sum_valid(nodes3, cnodes + 1) == sum);
    // the old witness still reaches `t`, possibly through the new parent
    let v = choose|v: int| 0 <= v < cnodes && nodes[v].valid && #[trigger] reachable(nodes, v, t);
    lemma_reach_consumed(nodes, v, t, v0, cnodes);
    if two {
        lemma_reach_consumed(nodes1, v, t, v1, cnodes);
    }
    lemma_reach_update_high(nodes2, v, t, cnodes, parent);
    assert(reachable(nodes3, v, t));
    let vnew: int = if v == v0 || (two && v == v1) {
        assert(reachable(nodes3, cnodes, t));
        cnodes
    } else {
        assert(nodes3[v] == nodes[v]);
        v
    };
    assert(0 <= vnew < cnodes + 1 && nodes3[vnew].valid && reachable(nodes3, vnew, t));
    if w == sum {
        if vnew != cnodes {
            // a second live node would push the live sum past the total
            lemma_sum_valid_pair(nodes3, cnodes + 1, vnew, cnodes);
            assert(nodes3[vnew].weight > 0);
            assert(false);
        }
    } else {
        assert forall|q: int| 0 <= q < cnodes + 1 && nodes3[q].valid implies (
        #[trigger] nodes3[q].weight) > 0 by {
            if q != cnodes {
                assert(q != v0 && (two ==> q != v1));
                assert(nodes3[q] == nodes[q]);
            }
        }
        lemma_pair_loop_reach(nodes3, cnodes + 1, sum, (fuel - 1) as nat, t);
    }
}

/// The live weights of the freshly initialized pool sum to the table's
/// weights.
proof fn lemma_init_sum(table: Seq<u32>, k: int)
    requires
        table.len() == 256,
        k <= 256,
    ensures
        sum_valid(init_cbg_nodes(table), k) == sum_weights(table, k),
    decreases k,
{
    if k > 0 {
        lemma_init_sum(table, k - 1);
    }
}

/// Every symbol with a positive weight is a leaf reachable from the
/// root of the built tree.
pub proof fn lemma_method2_leaf_reachable(table: Seq<u32>, i: int)
    requires
        table.len() == 256,
        spec_method2(table) is Some,
        0 <= i < 256,
        table[i] > 0,
    ensures
        ({
            let r = spec_method2(table).unwrap();
            reachable(r.0, r.1 as int, i)
        }),
{
    let init = init_cbg_nodes(table);
    lemma_init_sum(table, 256);
    lemma_sum_weights_nonneg(table, 256);
    assert(init[i].valid && reachable(init, i, i));
    assert forall|v: int| 0 <= v < 256 && init[v].valid implies (#[trigger] init[v].weight)
        > 0 by {}
    lemma_pair_loop_reach(init, 256, sum_weights(table, 256) as u32, 256, i);
}

/// Bit `k` of the stream `s`, counting from each byte's most
/// significant bit.
pub open spec fn bit_at(s: Seq<u8>, k: int) -> int {
    (s[k / 8] as int / crate::decrypt::p2(7 - (k % 8))) % 2
}

/// Walks from node `cur` down the pairing tree, one bit per edge, to
/// the first non-parent node; returns its byte value and the next bit
/// position. `None` on end of input or an edge that does not descend.
pub open spec fn huff_walk(nodes: Seq<NodeCBG>, s: Seq<u8>, k: int, cur: int) -> Option<(u8, int)>
    decreases cur,
{
    if !(0 <= cur < nodes.len()) {
        None
    } else if !nodes[cur].is_parent {
        Some(((cur % 256) as u8, k))
    } else if k < 0 || k / 8 >= s.len() {
        None
    } else {
        let child = if bit_at(s, k) == 0 {
            nodes[cur].child0 as int
        } else {
            nodes[cur].child1 as int
        };
        if child >= cur || child < 0 || child >= nodes.len() {
            None
        } else if !nodes[child].is_parent {
            Some(((child % 256) as u8, k + 1))
        } else {
            huff_walk(nodes, s, k + 1, child)
        }
    }
}

/// The leaf reached from `cur` by taking the 0-bit child at every
/// step, under the walk's own guards.
pub open spec fn left_walk(nodes: Seq<NodeCBG>, cur: int) -> Option<u8>
    decreases cur,
{
    if !(0 <= cur < nodes.len()) {
        None
    } else if !nodes[cur].is_parent {
        Some(((cur % 256) as u8))
    } else {
        let child = nodes[cur].child0 as int;
        if child >= cur || child < 0 || child >= nodes.len() {
            None
        } else if !nodes[child].is_parent {
            Some(((child % 256) as u8))
        } else {
            left_walk(nodes, child)
        }
    }
}

/// Decoding against a stream of zero bytes strictly descends the
/// 0-bit children: the symbol is the leftmost leaf under the start.
pub proof fn lemma_zero_bits_descend_left(nodes: Seq<NodeCBG>, s: Seq<u8>, k: int, cur: int)
    requires
        forall|j: int| 0 <= j < s.len() ==> s[j] == 0,
        0 <= k,
        huff_walk(nodes, s, k, cur) is Some,
    ensures
        left_walk(nodes, cur) is Some,
        huff_walk(nodes, s, k, cur).unwrap().0 == left_walk(nodes, cur).unwrap(),
    decreases cur,
{
    if 0 <= cur < nodes.len() && nodes[cur].is_parent {
        assert(s[k / 8] == 0);
        assert(bit_at(s, k) == 0);
        let child = nodes[cur].child0 as int;
        if 0 <= child < cur && child < nodes.len() && nodes[child].is_parent {
            lemma_zero_bits_descend_left(nodes, s, k + 1, child);
        }
    }
}

/// Decodes `count` symbols from bit position `k`, appending each to
/// `out`.
pub open spec fn huff_decode(
    nodes: Seq<NodeCBG>,
    root: int,
    s: Seq<u8>,
    k: int,
    count: int,
    out: Seq<u8>,
) -> Option<Seq<u8>>
    decreases count,
{
    if count <= 0 {
        Some(out)
    } else {
        match huff_walk(nodes, s, k, root) {
            None => None,
            Some((b, k2)) => huff_decode(nodes, root, s, k2, count - 1, out.push(b)),
        }
    }
}

/// Decodes `count` intermediate bytes from the bit stream `src`.
fn huff_decode_exec(nodes: &Vec<NodeCBG>, root: u32, src: &Vec<u8>, count: u32) -> (r: Result<
    Vec<u8>,
    ArcError,
>)
    requires
        nodes@.len() == 511,
        root < 511,
    ensures
        match r {
            Ok(out) => huff_decode(nodes@, root as int, src@, 0, count as int, Seq::empty())
                == Some(out@) && out@.len() == count,
            Err(e) => huff_decode(nodes@, root as int, src@, 0, count as int, Seq::empty())
                is None && e == ArcError::CbgDecryptError,
        },
{
    let n = src.len();
    let mut out: Vec<u8> = Vec::new();
    let mut left: u32 = count;
    let ghost k0: int = 0;
    let mut spos: usize = 0;
    let mut cur_byte: u8 = 0;
    let mut mask: u8 = 0x80;
    let ghost mut k: int = 0;
    while left > 0
        invariant
            n == src@.len(),
            nodes@.len() == 511,
            root < 511,
            out@.len() + left == count,
            0 <= k,
            k % 8 == 0 ==> mask == 0x80 && spos == k / 8,
            k % 8 != 0 ==> mask == crate::decrypt::p2(7 - (k % 8)) && spos == k / 8 + 1 && k / 8
                < n && cur_byte == src@[k / 8],
            huff_decode(nodes@, root as int, src@, k, left as int, out@) == huff_decode(
                nodes@,
                root as int,
                src@,
                0,
                count as int,
                Seq::empty(),
            ),
        decreases left,
    {
        let ghost k_sym = k;
        let mut cv: usize = root as usize;
        // walk to a non-parent node
        loop
            invariant
                n == src@.len(),
                nodes@.len() == 511,
                cv < 511,
                0 <= k,
                k % 8 == 0 ==> mask == 0x80 && spos == k / 8,
                k % 8 != 0 ==> mask == crate::decrypt::p2(7 - (k % 8)) && spos == k / 8 + 1 && k
                    / 8 < n && cur_byte == src@[k / 8],
                huff_walk(nodes@, src@, k, cv as int) == huff_walk(
                    nodes@,
                    src@,
                    k_sym,
                    root as int,
                ),
                left > 0,
                huff_decode(nodes@, root as int, src@, k_sym, left as int, out@) == huff_decode(
                    nodes@,
                    root as int,
                    src@,
                    0,
                    count as int,
                    Seq::empty(),
                ),
            ensures
                cv < 511,
                !nodes@[cv as int].is_parent,
                0 <= k,
                k % 8 == 0 ==> mask == 0x80 && spos == k / 8,
                k % 8 != 0 ==> mask == crate::decrypt::p2(7 - (k % 8)) && spos == k / 8 + 1 && k
                    / 8 < n && cur_byte == src@[k / 8],
                huff_walk(nodes@, src@, k_sym, root as int) == Some((
                    (cv % 256) as u8,
                    k,
                )),
            decreases cv,
        {
            if !nodes[cv].is_parent {
                break ;
            }
            if mask == 0x80 {
                if spos >= n {
                    proof {
                        assert(huff_walk(nodes@, src@, k, cv as int) is None);
                        assert(huff_decode(
                            nodes@,
                            root as int,
                            src@,
                            k_sym,
                            left as int,
                            out@,
                        ) is None);
                    }
                    return Err(ArcError::CbgDecryptError);
                }
                cur_byte = src[spos];
                spos = spos + 1;
            }
            let bit: usize = if (cur_byte / mask) % 2 == 1 {
                1
            } else {
                0
            };
            proof {
                assert(k / 8 < n && cur_byte == src@[k / 8]);
                assert(mask == crate::decrypt::p2(7 - (k % 8)));
                assert((bit == 1) <==> bit_at(src@, k) == 1);
            }
            let child = if bit == 0 {
                nodes[cv].child0
            } else {
                nodes[cv].child1
            };
            if child as usize >= cv || child >= 511 {
                proof {
                    assert(huff_walk(nodes@, src@, k, cv as int) is None);
                    assert(huff_decode(
                        nodes@,
                        root as int,
                        src@,
                        k_sym,
                        left as int,
                        out@,
                    ) is None);
                }
                return Err(ArcError::CbgDecryptError);
            }
            let ghost cv_old = cv as int;
            mask = if mask == 1 {
                0x80
            } else {
                mask / 2
            };
            proof {
                k = k + 1;
            }
            cv = child as usize;
            proof {
                assert(huff_walk(nodes@, src@, k, cv as int) == huff_walk(
                    nodes@,
                    src@,
                    k - 1,
                    cv_old,
                ));
            }
        }
        out.push((cv % 256) as u8);
        left = left - 1;
    }
    Ok(out)
}

/// Expands the zero-run stream: varint lengths alternate between a
/// literal copy from the stream and a run of zeros, starting with a
/// copy, until the stream is spent.
pub open spec fn rle_expand(s: Seq<u8>, pos: int, zero_flag: bool, out: Seq<u8>) -> Option<
    Seq<u8>,
>
    decreases s.len() - pos,
    via rle_expand_decreases
{
    if pos >= s.len() {
        Some(out)
    } else {
        match spec_varint(s, pos) {
            None => None,
            Some((len, p2)) => {
                if !zero_flag {
                    if p2 + len > s.len() {
                        None
                    } else {
                        rle_expand(s, p2 + len, true, out + s.subrange(p2, p2 + len))
                    }
                } else {
                    rle_expand(s, p2, false, out + Seq::new(len as nat, |j: int| 0u8))
                }
            },
        }
    }
}

#[via_fn]
proof fn rle_expand_decreases(s: Seq<u8>, pos: int, zero_flag: bool, out: Seq<u8>) {
    if pos < s.len() {
        if spec_varint(s, pos) is Some {
            lemma_varint_advances(s, pos, 0, 1, 0);
        }
    }
}

/// Expands the decoded intermediate bytes into the raw pixel stream.
fn rle_expand_exec(data1: &Vec<u8>) -> (r: Result<Vec<u8>, ArcError>)
    ensures
        match r {
            Ok(out) => rle_expand(data1@, 0, false, Seq::empty()) == Some(out@),
            Err(e) => rle_expand(data1@, 0, false, Seq::empty()) is None && e
                == ArcError::CbgDecryptError,
        },
{
    let n = data1.len();
    let mut out: Vec<u8> = Vec::new();
    let mut pos: usize = 0;
    let mut zero_flag = false;
    while pos < n
        invariant
            n == data1@.len(),
            pos <= n,
            rle_expand(data1@, pos as int, zero_flag, out@) == rle_expand(
                data1@,
                0,
                false,
                Seq::empty(),
            ),
        decreases n - pos,
    {
        let len = match read_variable(data1, &mut pos) {
            Ok(v) => v,
            Err(_) => {
                return Err(ArcError::CbgDecryptError);
            },
        };
        if !zero_flag {
            if len as u64 > (n - pos) as u64 {
                return Err(ArcError::CbgDecryptError);
            }
            let ghost out0 = out@;
            let stop = pos + len as usize;
            while pos < stop
                invariant
                    stop <= n,
                    n == data1@.len(),
                    pos <= stop,
                    len <= stop,
                    stop - len <= pos,
                    out@ == out0 + data1@.subrange(stop - len, pos as int),
                decreases stop - pos,
            {
                out.push(data1[pos]);
                pos = pos + 1;
                proof {
                    assert(out@ =~= out0 + data1@.subrange(stop - len, pos as int));
                }
            }
        } else {
            let ghost out0 = out@;
            let mut z: u32 = 0;
            while z < len
                invariant
                    z <= len,
                    out@ == out0 + Seq::new(z as nat, |j: int| 0u8),
                decreases len - z,
            {
                out.push(0);
                z = z + 1;
                proof {
                    assert(out@ =~= out0 + Seq::new(z as nat, |j: int| 0u8));
                }
            }
        }
        zero_flag = !zero_flag;
    }
    Ok(out)
}

/// The prediction added to byte `i`: the same component one pixel to
/// the left, one row above, or their average when both exist.
pub open spec fn avg_at(out: Seq<u8>, i: int, w: int, stride: int) -> int {
    let x = (i / stride) % w;
    let y = (i / stride) / w;
    if x > 0 && y > 0 {
        (out[i - stride] + out[i - w * stride]) / 2
    } else if x > 0 {
        out[i - stride] as int
    } else if y > 0 {
        out[i - w * stride] as int
    } else {
        0
    }
}

/// The first `n` bytes after the 2D predictor: each byte plus its
/// prediction, mod 256.
pub open spec fn predict(raw: Seq<u8>, w: int, stride: int, n: int) -> Seq<u8>
    decreases n,
{
    if n <= 0 {
        Seq::empty()
    } else {
        let prev = predict(raw, w, stride, n - 1);
        prev.push(((raw[n - 1] + avg_at(prev, n - 1, w, stride)) % 256) as u8)
    }
}

/// Applies the 2D predictor over the first `n` bytes of `raw`.
fn predict_exec(raw: &Vec<u8>, w: usize, stride: usize, n: usize) -> (r: Vec<u8>)
    requires
        n <= raw@.len(),
        1 <= stride <= 4,
        n > 0 ==> w >= 1,
    ensures
        r@ == predict(raw@, w as int, stride as int, n as int),
        r@.len() == n,
{
    let mut out: Vec<u8> = Vec::new();
    let mut i: usize = 0;
    while i < n
        invariant
            i <= n <= raw@.len(),
            1 <= stride <= 4,
            n > 0 ==> w >= 1,
            out@.len() == i,
            out@ == predict(raw@, w as int, stride as int, i as int),
        decreases n - i,
    {
        let x = (i / stride) % w;
        let y = (i / stride) / w;
        let avg: u32 = if x > 0 && y > 0 {
            proof {
                assert(w * stride >= stride) by (nonlinear_arith)
                    requires
                        w >= 1,
                        stride >= 1,
                ;
                assert(i / stride * stride <= i) by (nonlinear_arith)
                    requires
                        stride >= 1,
                        i >= 0,
                ;
                assert(i - w * stride >= 0) by (nonlinear_arith)
                    requires
                        (i as int / stride as int) / w as int > 0,
                        stride >= 1,
                        w >= 1,
                        i >= 0,
                ;
            }
            (out[i - stride] as u32 + out[i - w * stride] as u32) / 2
        } else if x > 0 {
            proof {
                assert(i - stride >= 0) by (nonlinear_arith)
                    requires
                        (i as int / stride as int) % w as int > 0,
                        stride >= 1,
                        w >= 1,
                        i >= 0,
                ;
            }
            out[i - stride] as u32
        } else if y > 0 {
            proof {
                assert(i - w * stride >= 0 && w * stride >= 1) by (nonlinear_arith)
                    requires
                        (i as int / stride as int) / w as int > 0,
                        stride >= 1,
                        w >= 1,
                        i >= 0,
                ;
            }
            out[i - w * stride] as u32
        } else {
            0
        };
        out.push(((raw[i] as u32 + avg) % 256) as u8);
        i = i + 1;
        proof {
            assert(out@ =~= predict(raw@, w as int, stride as int, i as int));
        }
    }
    out
}

/// Component `c` (red, green, blue, alpha) of pixel `p`: the stored
/// order is grayscale, BGR565, BGR or BGRA depending on the depth.
pub open spec fn cbg_pixel(out: Seq<u8>, bpp: int, p: int, c: int) -> u8 {
    if bpp == 32 {
        if c == 3 {
            out[4 * p + 3]
        } else {
            out[4 * p + (2 - c)]
        }
    } else if bpp == 24 {
        if c == 3 {
            255u8
        } else {
            out[3 * p + (2 - c)]
        }
    } else if bpp == 16 {
        let v = out[2 * p] + 256 * out[2 * p + 1];
        if c == 3 {
            255u8
        } else if c == 0 {
            let r5 = v % 32;
            (r5 * 8 + r5 / 4) as u8
        } else if c == 1 {
            let g6 = v / 32 % 64;
            (g6 * 4 + g6 / 16) as u8
        } else {
            let b5 = v / 2048;
            (b5 * 8 + b5 / 4) as u8
        }
    } else {
        if c == 3 {
            255u8
        } else {
            out[p]
        }
    }
}

/// The RGBA rows of a predicted pixel buffer.
pub open spec fn cbg_rgba(out: Seq<u8>, bpp: int, count: int) -> Seq<u8> {
    Seq::new((count * 4) as nat, |i: int| cbg_pixel(out, bpp, i / 4, i % 4))
}

/// Converts the predicted bytes to RGBA rows.
fn cbg_rgba_exec(out: &Vec<u8>, bpp: u32, count: usize, stride: usize) -> (px: Vec<u8>)
    requires
        (bpp == 8 && stride == 1) || (bpp == 16 && stride == 2) || (bpp == 24 && stride == 3) || (
        bpp == 32 && stride == 4),
        count * stride <= out@.len(),
        count * 4 <= usize::MAX,
    ensures
        px@ == cbg_rgba(out@, bpp as int, count as int),
{
    let mut px: Vec<u8> = Vec::new();
    let mut p: usize = 0;
    while p < count
        invariant
            p <= count,
            (bpp == 8 && stride == 1) || (bpp == 16 && stride == 2) || (bpp == 24 && stride == 3)
                || (bpp == 32 && stride == 4),
            count * stride <= out@.len(),
            count * 4 <= usize::MAX,
            px@.len() == 4 * p,
            forall|i: int| 0 <= i < 4 * p ==> px@[i] == cbg_pixel(out@, bpp as int, i / 4, i % 4),
        decreases count - p,
    {
        proof {
            assert(p * stride + stride <= count * stride) by (nonlinear_arith)
                requires
                    p < count,
                    stride >= 1,
            ;
            assert(4 * p + 4 <= 4 * count) by (nonlinear_arith)
                requires
                    p < count,
            ;
        }
        let (rr, gg, bb, aa) = if bpp == 32 {
            let base = 4 * p;
            (out[base + 2], out[base + 1], out[base], out[base + 3])
        } else if bpp == 24 {
            let base = 3 * p;
            (out[base + 2], out[base + 1], out[base], 255u8)
        } else if bpp == 16 {
            let v = out[2 * p] as u32 + 256 * out[2 * p + 1] as u32;
            let r5 = v % 32;
            let g6 = v / 32 % 64;
            let b5 = v / 2048;
            (
                (r5 * 8 + r5 / 4) as u8,
                (g6 * 4 + g6 / 16) as u8,
                (b5 * 8 + b5 / 4) as u8,
                255u8,
            )
        } else {
            (out[p], out[p], out[p], 255u8)
        };
        px.push(rr);
        px.push(gg);
        px.push(bb);
        px.push(aa);
        p = p + 1;
        proof {
            assert forall|i: int| 0 <= i < 4 * p implies px@[i] == cbg_pixel(
                out@,
                bpp as int,
                i / 4,
                i % 4,
            ) by {
                let q = p - 1;
                if i >= 4 * q {
                    let c = i % 4;
                    assert(i / 4 == q);
                    assert(i == 4 * q + c);
                    assert(px@[4 * q] == rr && px@[4 * q + 1] == gg && px@[4 * q + 2] == bb
                        && px@[4 * q + 3] == aa);
                }
            }
        }
    }
    proof {
        assert(px@ =~= cbg_rgba(out@, bpp as int, count as int));
    }
    px
}

/// The 256-entry weight table read as varints from the decrypted
/// block, `k` entries still to read.
pub open spec fn weight_table(s: Seq<u8>, pos: int, k: int, acc: Seq<u32>) -> Option<Seq<u32>>
    decreases k,
{
    if k <= 0 {
        Some(acc)
    } else {
        match spec_varint(s, pos) {
            None => None,
            Some((v, p2)) => weight_table(s, p2, k + -1, acc.push(v)),
        }
    }
}

/// Reads the 256 varint weights from the decrypted block.
fn read_weight_table(data0: &Vec<u8>) -> (r: Result<Vec<u32>, ArcError>)
    ensures
        match r {
            Ok(t) => weight_table(data0@, 0, 256, Seq::empty()) == Some(t@) && t@.len() == 256,
            Err(e) => weight_table(data0@, 0, 256, Seq::empty()) is None && e
                == ArcError::CbgDecryptError,
        },
{
    let mut t: Vec<u32> = Vec::new();
    let mut pos: usize = 0;
    let mut k: usize = 0;
    while k < 256
        invariant
            k <= 256,
            t@.len() == k,
            weight_table(data0@, pos as int, 256 - k as int, t@) == weight_table(
                data0@,
                0,
                256,
                Seq::empty(),
            ),
        decreases 256 - k,
    {
        match read_variable(data0, &mut pos) {
            Ok(v) => {
                t.push(v);
            },
            Err(_) => {
                return Err(ArcError::CbgDecryptError);
            },
        }
        k = k + 1;
    }
    Ok(t)
}

/// What a CBG blob decodes to: the keystream-subtracted weight block is
/// validated against its checksums and read as 256 varint weights; the
/// pairing tree then Huffman-decodes the declared number of
/// intermediate bytes, which a zero-run expansion, the 2D predictor and
/// the channel reorder turn into RGBA rows. `None` for a blob too
/// short, a failed checksum, a depth other than 8, 16, 24 or 32 bits,
/// or a malformed stream.
pub open spec fn spec_cbg_decrypt(s: Seq<u8>) -> Option<(Seq<u8>, u16, u16)> {
    if s.len() < 48 {
        None
    } else {
        let w = spec_le16(s, 16);
        let h = spec_le16(s, 18);
        let bpp = spec_le32(s, 20);
        let data1_len = spec_le32(s, 32);
        let key = spec_le32(s, 36) as u32;
        let data0_len = spec_le32(s, 40);
        if s.len() < 48 + data0_len {
            None
        } else {
            let data0 = Seq::new(
                data0_len as nat,
                |j: int| crate::decrypt::sub_byte(s[48 + j], key, j as nat),
            );
            if !(sum8(data0) % 256 == s[44] && xor8(data0) == s[45]) {
                None
            } else {
                match weight_table(data0, 0, 256, Seq::empty()) {
                    None => None,
                    Some(table) => match spec_method2(table) {
                        None => None,
                        Some((nodes, root)) => match huff_decode(
                            nodes,
                            root as int,
                            s.subrange(48 + data0_len, s.len() as int),
                            0,
                            data1_len,
                            Seq::empty(),
                        ) {
                            None => None,
                            Some(data1) => match rle_expand(data1, 0, false, Seq::empty()) {
                                None => None,
                                Some(data3) => {
                                    if !(bpp == 8 || bpp == 16 || bpp == 24 || bpp == 32) {
                                        None
                                    } else {
                                        let stride = bpp / 8;
                                        let raw_len = w * h * stride;
                                        if data3.len() < raw_len || w * h * 4 > usize::MAX {
                                            None
                                        } else {
                                            let outp = predict(data3, w, stride, raw_len);
                                            Some(
                                                (
                                                    cbg_rgba(outp, bpp, w * h),
                                                    w as u16,
                                                    h as u16,
                                                ),
                                            )
                                        }
                                    }
                                },
                            },
                        },
                    },
                }
            }
        }
    }
}

/// Decodes a CBG blob into RGBA rows, returning width and height.
#[verifier::rlimit(100)]
pub fn decrypt(crypted: &Vec<u8>) -> (r: Result<(Vec<u8>, u16, u16), ArcError>)
    ensures
        match r {
            Ok(t) => spec_cbg_decrypt(crypted@) == Some((t.0@, t.1, t.2)),
            Err(e) => spec_cbg_decrypt(crypted@) is None && if crypted@.len() < 48 {
                e == ArcError::InvalidFormat
            } else {
                e == ArcError::CbgDecryptError
            },
        },
{
    if crypted.len() < 48 {
        return Err(ArcError::InvalidFormat);
    }
    let mut pos: usize = 16;
    let w = crate::decrypt::read16(crypted, &mut pos);
    let h = crate::decrypt::read16(crypted, &mut pos);
    let bpp = crate::decrypt::read32(crypted, &mut pos);
    let _ = crate::decrypt::read32(crypted, &mut pos);
    let _ = crate::decrypt::read32(crypted, &mut pos);
    let data1_len = crate::decrypt::read32(crypted, &mut pos);
    let key = crate::decrypt::read32(crypted, &mut pos);
    let data0_len = crate::decrypt::read32(crypted, &mut pos);
    let sum_check = crypted[44];
    let xor_check = crypted[45];
    if ((crypted.len() - 48) as u64) < (data0_len as u64) {
        return Err(ArcError::CbgDecryptError);
    }
    let data0 = keystream_sub(crypted, 48, data0_len as usize, key);
    let ghost data0_spec = Seq::new(
        data0_len as nat,
        |j: int| crate::decrypt::sub_byte(crypted@[48 + j], key, j as nat),
    );
    proof {
        assert(data0@ =~= data0_spec);
    }
    // checksum over the decrypted block
    let mut sum_data: u8 = 0;
    let mut xor_data: u8 = 0;
    let mut c: usize = 0;
    let d0n = data0.len();
    while c < d0n
        invariant
            c <= d0n,
            d0n == data0@.len(),
            sum_data == sum8(data0@.subrange(0, c as int)) % 256,
            xor_data == xor8(data0@.subrange(0, c as int)),
        decreases d0n - c,
    {
        let ghost pre = data0@.subrange(0, c as int);
        sum_data = sum_data.wrapping_add(data0[c]);
        xor_data = xor_data ^ data0[c];
        c = c + 1;
        proof {
            assert(data0@.subrange(0, c as int).drop_last() =~= pre);
            assert(data0@.subrange(0, c as int).last() == data0@[c - 1]);
            vstd::arithmetic::div_mod::lemma_add_mod_noop(sum8(pre), data0@[c - 1] as int, 256);
        }
    }
    proof {
        assert(data0@.subrange(0, d0n as int) =~= data0@);
    }
    if sum_data != sum_check || xor_data != xor_check {
        return Err(ArcError::CbgDecryptError);
    }
    let table = match read_weight_table(&data0) {
        Ok(t) => t,
        Err(e) => {
            return Err(e);
        },
    };
    let (nodes, root) = match method2(&table) {
        Ok(t) => t,
        Err(e) => {
            return Err(e);
        },
    };
    // the bit stream after the encrypted block
    let mut src: Vec<u8> = Vec::new();
    let mut q: usize = 48 + data0_len as usize;
    let cn = crypted.len();
    while q < cn
        invariant
            48 + data0_len <= q <= cn,
            cn == crypted@.len(),
            src@ == crypted@.subrange(48 + data0_len as int, q as int),
        decreases cn - q,
    {
        src.push(crypted[q]);
        q = q + 1;
        proof {
            assert(src@ =~= crypted@.subrange(48 + data0_len as int, q as int));
        }
    }
    let data1 = match huff_decode_exec(&nodes, root, &src, data1_len) {
        Ok(d) => d,
        Err(e) => {
            return Err(e);
        },
    };
    let data3 = match rle_expand_exec(&data1) {
        Ok(d) => d,
        Err(e) => {
            return Err(e);
        },
    };
    if !(bpp == 8 || bpp == 16 || bpp == 24 || bpp == 32) {
        return Err(ArcError::CbgDecryptError);
    }
    let stride = (bpp / 8) as usize;
    proof {
        assert(w as u64 * (h as u64) <= 0xFFFF * 0xFFFF && w as u64 * (h as u64) * (
        stride as u64) <= 0xFFFF * 0xFFFF * 4 && w as u64 * (h as u64) * 4 <= 0xFFFF * 0xFFFF
            * 4) by (nonlinear_arith)
            requires
                w <= 0xFFFF,
                h <= 0xFFFF,
                stride <= 4,
        ;
    }
    let raw_len64 = w as u64 * h as u64 * stride as u64;
    if (data3.len() as u64) < raw_len64 {
        return Err(ArcError::CbgDecryptError);
    }
    let count64 = w as u64 * h as u64;
    if count64 * 4 > usize::MAX as u64 {
        return Err(ArcError::CbgDecryptError);
    }
    let raw_len = raw_len64 as usize;
    proof {
        assert(w as int * h as int * stride as int == raw_len64) by (nonlinear_arith)
            requires
                raw_len64 == w as u64 as int * (h as u64 as int) * (stride as u64 as int),
                w as u64 == w,
                h as u64 == h,
                stride as u64 == stride,
        ;
        assert(raw_len > 0 ==> w >= 1) by (nonlinear_arith)
            requires
                raw_len == w as int * h as int * stride as int,
                w >= 0,
                h >= 0,
                stride >= 0,
        ;
    }
    let outp = predict_exec(&data3, w as usize, stride, raw_len);
    let count = (w as usize) * (h as usize);
    proof {
        assert(count * stride == raw_len && count * 4 <= raw_len * 4) by (nonlinear_arith)
            requires
                count == w as int * h as int,
                raw_len == w as int * h as int * stride as int,
                stride >= 1,
        ;
        assert(outp@.len() == raw_len);
    }
    let px = cbg_rgba_exec(&outp, bpp, count, stride);
    Ok((px, w, h))
}

} // verus!
