//! The DSC codec: a 512-entry code-length table is decrypted with the
//! keystream, turned into a canonical Huffman tree level by level, and
//! the remaining bit stream is decoded into literals and LZ-style
//! back-references.

use vstd::prelude::*;
use crate::decrypt::{spec_le32, sub_byte, keystream_sub, p2, pow2_small, read32};
use crate::error::ArcError;

verus! {

/// One slot of the 1024-node Huffman pool.
#[derive(Clone, Copy, PartialEq, Eq, Structural, Debug)]
pub struct NodeDSC {
    /// Whether this node is internal.
    pub has_childs: bool,
    /// For a leaf: the 9-bit symbol; its high bit marks a match token.
    pub leaf_value: u32,
    /// Index of the child taken on a 0 bit.
    pub child0: u32,
    /// Index of the child taken on a 1 bit.
    pub child1: u32,
}

impl NodeDSC {
    /// A fresh, empty node.
    pub fn new() -> (r: NodeDSC)
        ensures
            r == (NodeDSC { has_childs: false, leaf_value: 0, child0: 0, child1: 0 }),
    {
        NodeDSC { has_childs: false, leaf_value: 0, child0: 0, child1: 0 }
    }
}

/// The bytes of `"DSC FORMAT 1.00"`.
pub open spec fn dsc_magic() -> Seq<u8> {
    seq![
        0x44u8,
        0x53u8,
        0x43u8,
        0x20u8,
        0x46u8,
        0x4Fu8,
        0x52u8,
        0x4Du8,
        0x41u8,
        0x54u8,
        0x20u8,
        0x31u8,
        0x2Eu8,
        0x30u8,
        0x30u8,
    ]
}

/// Whether a blob announces the DSC codec: a minimum size and the magic.
pub open spec fn spec_is_valid(s: Seq<u8>, size: u32) -> bool {
    size >= 32 && s.subrange(0, 15) == dsc_magic()
}

/// Whether `data` announces the DSC codec.
pub fn is_valid(data: &Vec<u8>, size: u32) -> (r: bool)
    requires
        data@.len() >= size,
    ensures
        r == spec_is_valid(data@, size),
{
    if size < 32 {
        return false;
    }
    let magic: [u8; 15] = [
        0x44,
        0x53,
        0x43,
        0x20,
        0x46,
        0x4F,
        0x52,
        0x4D,
        0x41,
        0x54,
        0x20,
        0x31,
        0x2E,
        0x30,
        0x30,
    ];
    let mut i: usize = 0;
    let mut ok = true;
    while i < 15
        invariant
            i <= 15,
            data@.len() >= 32,
            magic@ == dsc_magic(),
            ok == (forall|j: int| 0 <= j < i ==> data@[j] == dsc_magic()[j]),
        decreases 15 - i,
    {
        if data[i] != magic[i] {
            ok = false;
        }
        i = i + 1;
    }
    proof {
        if ok {
            assert(data@.subrange(0, 15) =~= dsc_magic());
        } else {
            assert(data@.subrange(0, 15) != dsc_magic()) by {
                let j = choose|j: int| 0 <= j < 15 && data@[j] != dsc_magic()[j];
                assert(data@.subrange(0, 15)[j] == data@[j]);
            }
        }
    }
    ok
}

/// The decrypted 512-byte code-length table of a DSC blob.
pub open spec fn dsc_lengths(s: Seq<u8>, seed: u32) -> Seq<u8> {
    Seq::new(512, |n: int| sub_byte(s[32 + n], seed, n as nat))
}

/// The packed records with code length `nn` among symbols `0..k`, in
/// symbol order: `(length << 16) + symbol`.
pub open spec fn records_for_len(lengths: Seq<u8>, nn: int, k: int) -> Seq<u32>
    decreases k,
{
    if k <= 0 {
        Seq::empty()
    } else if lengths[k - 1] == nn {
        records_for_len(lengths, nn, k - 1).push((nn * 0x1_0000 + (k - 1)) as u32)
    } else {
        records_for_len(lengths, nn, k - 1)
    }
}

/// All records with code length `1..=nn`, shortest first.
pub open spec fn records_upto(lengths: Seq<u8>, nn: int) -> Seq<u32>
    decreases nn,
{
    if nn <= 0 {
        Seq::empty()
    } else {
        records_upto(lengths, nn - 1) + records_for_len(lengths, nn, 512)
    }
}

/// The sorted record table of a DSC blob: non-zero code lengths paired
/// with their symbols, ordered by length, then symbol.
pub open spec fn sorted_records(lengths: Seq<u8>) -> Seq<u32> {
    records_upto(lengths, 255)
}

/// Builds the sorted record table from the decrypted length bytes.
fn build_sorted_records(lengths: &Vec<u8>) -> (r: Vec<u32>)
    requires
        lengths@.len() == 512,
    ensures
        r@ == sorted_records(lengths@),
{
    let mut r: Vec<u32> = Vec::new();
    let mut nn: u32 = 1;
    while nn <= 255
        invariant
            1 <= nn <= 256,
            lengths@.len() == 512,
            r@ == records_upto(lengths@, nn - 1),
        decreases 256 - nn,
    {
        let mut s: usize = 0;
        while s < 512
            invariant
                s <= 512,
                1 <= nn <= 255,
                lengths@.len() == 512,
                r@ == records_upto(lengths@, nn - 1) + records_for_len(
                    lengths@,
                    nn as int,
                    s as int,
                ),
            decreases 512 - s,
        {
            if lengths[s] as u32 == nn {
                r.push(nn * 0x1_0000 + s as u32);
            }
            s = s + 1;
            proof {
                assert(r@ =~= records_upto(lengths@, nn - 1) + records_for_len(
                    lengths@,
                    nn as int,
                    s as int,
                ));
            }
        }
        nn = nn + 1;
    }
    proof {
        assert(records_upto(lengths@, 255).len() >= 0);
    }
    r
}

/// The 1024 empty nodes every tree starts from.
pub open spec fn init_nodes() -> Seq<NodeDSC> {
    Seq::new(1024, |j: int| NodeDSC { has_childs: false, leaf_value: 0, child0: 0, child1: 0 })
}

/// How many consecutive records at the head of `recs` carry code length
/// `nn`.
pub open spec fn group_len(recs: Seq<u32>, nn: int) -> int
    decreases recs.len(),
{
    if recs.len() == 0 {
        0
    } else if recs[0] / 0x1_0000 == nn {
        1 + group_len(recs.drop_first(), nn)
    } else {
        0
    }
}

/// The pool after the first `t` of this level's slots became leaves for
/// records `i..`.
pub open spec fn assign_leaves(
    nodes: Seq<NodeDSC>,
    recs: Seq<u32>,
    i: int,
    level: Seq<u32>,
    t: int,
) -> Seq<NodeDSC>
    decreases t,
{
    if t <= 0 {
        nodes
    } else {
        assign_leaves(nodes, recs, i, level, t - 1).update(
            level[t - 1] as int,
            NodeDSC { has_childs: false, leaf_value: recs[i + t - 1] % 0x200, child0: 0, child1: 0 },
        )
    }
}

/// The pool after the first `t` of this level's remaining slots became
/// internal nodes whose children are allocated from `next` onward.
pub open spec fn make_internals(
    nodes: Seq<NodeDSC>,
    level: Seq<u32>,
    g: int,
    next: int,
    t: int,
) -> Seq<NodeDSC>
    decreases t,
{
    if t <= 0 {
        nodes
    } else {
        make_internals(nodes, level, g, next, t - 1).update(
            level[g + t - 1] as int,
            NodeDSC {
                has_childs: true,
                leaf_value: 0,
                child0: (next + 2 * (t - 1)) as u32,
                child1: (next + 2 * (t - 1) + 1) as u32,
            },
        )
    }
}

/// Builds the canonical tree level by level: at each code length the
/// pending records become leaves of the current level's slots and every
/// remaining slot becomes an internal node with two fresh children.
/// `None` marks a table the pool cannot hold.
pub open spec fn spec_build(
    nodes: Seq<NodeDSC>,
    recs: Seq<u32>,
    i: int,
    level: Seq<u32>,
    next: int,
    nn: int,
    fuel: nat,
) -> Option<Seq<NodeDSC>>
    decreases fuel,
{
    if i >= recs.len() {
        Some(nodes)
    } else if fuel == 0 {
        None
    } else {
        let g = group_len(recs.subrange(i, recs.len() as int), nn);
        if g > level.len() {
            None
        } else {
            let cnt = level.len() - g;
            if next + 2 * cnt > 1024 {
                None
            } else {
                let nodes2 = assign_leaves(nodes, recs, i, level, g);
                let nodes3 = make_internals(nodes2, level, g, next, cnt as int);
                spec_build(
                    nodes3,
                    recs,
                    i + g,
                    Seq::new((2 * cnt) as nat, |j: int| (next + j) as u32),
                    next + 2 * cnt,
                    nn + 1,
                    (fuel - 1) as nat,
                )
            }
        }
    }
}

/// The tree a DSC record table denotes.
pub open spec fn spec_tree(recs: Seq<u32>) -> Option<Seq<NodeDSC>> {
    spec_build(init_nodes(), recs, 0, seq![0u32], 1, 0, 257)
}

/// Counts how many records starting at `i` carry code length `nn`.
fn count_group(recs: &Vec<u32>, i: usize, nn: u32) -> (g: usize)
    requires
        i <= recs@.len(),
    ensures
        g == group_len(recs@.subrange(i as int, recs@.len() as int), nn as int),
        i + g <= recs@.len(),
{
    let n = recs.len();
    let mut g: usize = 0;
    while i + g < n && recs[i + g] / 0x1_0000 == nn
        invariant
            i + g <= n,
            n == recs@.len(),
            group_len(recs@.subrange(i as int, n as int), nn as int) == g + group_len(
                recs@.subrange((i + g) as int, n as int),
                nn as int,
            ),
            forall|t: int| i <= t < i + g ==> recs@[t] / 0x1_0000 == nn,
        decreases n - i - g,
    {
        proof {
            let suf = recs@.subrange((i + g) as int, n as int);
            assert(suf[0] == recs@[i + g]);
            assert(suf.drop_first() =~= recs@.subrange((i + g + 1) as int, n as int));
        }
        g = g + 1;
    }
    proof {
        let suf = recs@.subrange((i + g) as int, n as int);
        if i + g < n {
            assert(suf[0] == recs@[i + g]);
            assert(group_len(suf, nn as int) == 0);
        }
    }
    g
}

/// Builds the 1024-node tree for a sorted record table.
pub fn build_tree(recs: &Vec<u32>) -> (r: Result<Vec<NodeDSC>, ArcError>)
    ensures
        match r {
            Ok(nodes) => spec_tree(recs@) == Some(nodes@) && nodes@.len() == 1024,
            Err(e) => spec_tree(recs@) is None && e == ArcError::DscDecryptError,
        },
{
    let mut nodes: Vec<NodeDSC> = Vec::new();
    let mut z: usize = 0;
    while z < 1024
        invariant
            z <= 1024,
            nodes@.len() == z,
            forall|j: int|
                0 <= j < z ==> nodes@[j] == (NodeDSC {
                    has_childs: false,
                    leaf_value: 0,
                    child0: 0,
                    child1: 0,
                }),
        decreases 1024 - z,
    {
        nodes.push(NodeDSC::new());
        z = z + 1;
    }
    proof {
        assert(nodes@ =~= init_nodes());
    }
    let mut level: Vec<u32> = Vec::new();
    level.push(0);
    proof {
        assert(level@ =~= seq![0u32]);
    }
    let mut next: usize = 1;
    let mut i: usize = 0;
    let mut nn: u32 = 0;
    let mut fuel: u32 = 257;
    while i < recs.len()
        invariant
            i <= recs.len(),
            nodes@.len() == 1024,
            next <= 1024,
            level@.len() <= 1024,
            nn + fuel == 257,
            forall|t: int| 0 <= t < level@.len() ==> level@[t] < 1024,
            spec_build(nodes@, recs@, i as int, level@, next as int, nn as int, fuel as nat)
                == spec_tree(recs@),
        decreases fuel,
    {
        if fuel == 0 {
            return Err(ArcError::DscDecryptError);
        }
        let g = count_group(recs, i, nn);
        if g > level.len() {
            return Err(ArcError::DscDecryptError);
        }
        let cnt = level.len() - g;
        if next + 2 * cnt > 1024 {
            return Err(ArcError::DscDecryptError);
        }
        let ghost nodes0 = nodes@;
        // this level's leaves
        let mut t: usize = 0;
        while t < g
            invariant
                t <= g,
                i + g <= recs.len(),
                g <= level@.len() <= 1024,
                nodes@.len() == 1024,
                forall|q: int| 0 <= q < level@.len() ==> level@[q] < 1024,
                nodes@ == assign_leaves(nodes0, recs@, i as int, level@, t as int),
            decreases g - t,
        {
            let slot = level[t] as usize;
            let rec = recs[i + t];
            nodes[slot] = NodeDSC { has_childs: false, leaf_value: rec % 0x200, child0: 0, child1: 0 };
            t = t + 1;
        }
        let ghost nodes2 = nodes@;
        // the remaining slots become internal nodes
        let mut new_level: Vec<u32> = Vec::new();
        let mut u: usize = 0;
        while u < cnt
            invariant
                u <= cnt,
                g + cnt == level@.len() <= 1024,
                next + 2 * cnt <= 1024,
                nodes@.len() == 1024,
                forall|q: int| 0 <= q < level@.len() ==> level@[q] < 1024,
                nodes@ == make_internals(nodes2, level@, g as int, next as int, u as int),
                new_level@ =~= Seq::new(2 * u as nat, |j: int| (next + j) as u32),
            decreases cnt - u,
        {
            let slot = level[g + u] as usize;
            let c0 = (next + 2 * u) as u32;
            nodes[slot] = NodeDSC { has_childs: true, leaf_value: 0, child0: c0, child1: c0 + 1 };
            new_level.push(c0);
            new_level.push(c0 + 1);
            u = u + 1;
            proof {
                assert(new_level@ =~= Seq::new(2 * u as nat, |j: int| (next + j) as u32));
            }
        }
        level = new_level;
        i = i + g;
        next = next + 2 * cnt;
        nn = nn + 1;
        fuel = fuel - 1;
    }
    Ok(nodes)
}

/// Walks the tree from `entry` with MSB-first bits until a leaf, taking
/// bytes from `input` as the buffered bits run out. `None` on end of
/// stream inside a symbol or a walk that does not descend. Returns the
/// leaf value and the cursor state `(src, bits, nbits)` after the walk.
pub open spec fn decode_symbol(
    nodes: Seq<NodeDSC>,
    input: Seq<u8>,
    src: int,
    bits: u8,
    nbits: int,
    entry: int,
) -> Option<(u32, int, u8, int)>
    decreases 1024 - entry,
{
    if !(0 <= entry < 1024 && entry < nodes.len()) {
        None
    } else if !nodes[entry].has_childs {
        Some((nodes[entry].leaf_value, src, bits, nbits))
    } else {
        let (b2, n2, s2) = if nbits == 0 {
            (if src < input.len() {
                input[src]
            } else {
                0u8
            }, 8int, src + 1)
        } else {
            (bits, nbits, src)
        };
        if nbits == 0 && src >= input.len() {
            None
        } else {
            let bit = b2 / 128;
            let child = if bit == 0 {
                nodes[entry].child0 as int
            } else {
                nodes[entry].child1 as int
            };
            if child <= entry || child >= 1024 {
                None
            } else {
                decode_symbol(nodes, input, s2, ((b2 % 128) * 2) as u8, n2 - 1, child)
            }
        }
    }
}

/// Appends `count` bytes read `off` positions back in the output, one
/// at a time (overlapping copies repeat the copied prefix).
pub open spec fn lz_copy(dst: Seq<u8>, off: int, count: int) -> Seq<u8>
    decreases count,
{
    if count <= 0 {
        dst
    } else {
        lz_copy(dst.push(dst[dst.len() - off]), off, count - 1)
    }
}

/// A copy of `count` bytes lengthens the output by exactly `count`.
proof fn lemma_lz_copy_len(dst: Seq<u8>, off: int, count: int)
    ensures
        lz_copy(dst, off, count).len() == dst.len() + if count >= 0 {
            count
        } else {
            0int
        },
    decreases count,
{
    if count > 0 {
        lemma_lz_copy_len(dst.push(dst[dst.len() - off]), off, count - 1);
    }
}

/// Appending one more copied byte agrees with taking one more step of
/// the copy, and each step appends exactly one byte.
proof fn lemma_lz_copy_step(dst: Seq<u8>, off: int, c: int)
    requires
        1 <= off <= dst.len(),
        c >= 0,
    ensures
        lz_copy(dst, off, c).len() == dst.len() + c,
        lz_copy(dst, off, c + 1) == lz_copy(dst, off, c).push(
            lz_copy(dst, off, c)[lz_copy(dst, off, c).len() - off],
        ),
    decreases c,
{
    reveal_with_fuel(lz_copy, 3);
    if c == 0 {
    } else {
        let d1 = dst.push(dst[dst.len() - off]);
        lemma_lz_copy_step(d1, off, c - 1);
    }
}

/// Decodes symbols until the output reaches `size` or the input is
/// exhausted at a symbol boundary. A leaf with its ninth bit set is a
/// match token: a 12-bit descriptor follows, whose upper bits give the
/// back-offset minus 2 and whose leaf low byte gives the count minus 2.
/// `None` on end of stream inside a symbol, a back-offset past the
/// start, or a match that overruns `size`.
pub open spec fn decode_loop(
    nodes: Seq<NodeDSC>,
    input: Seq<u8>,
    size: int,
    src: int,
    bits: u8,
    nbits: int,
    dst: Seq<u8>,
) -> Option<Seq<u8>>
    decreases size - dst.len(),
    via decode_loop_decreases
{
    if dst.len() >= size || src >= input.len() {
        Some(dst)
    } else {
        match decode_symbol(nodes, input, src, bits, nbits, 0) {
            None => None,
            Some((leaf, s2, b2, n2)) => {
                if leaf / 0x100 % 0x100 == 1 {
                    let cv0 = b2 as int / p2(8 - n2);
                    let (cv, s3, nt) = if n2 < 4 {
                        (
                            if s2 + 2 <= input.len() {
                                input[s2 + 1] + (input[s2] + cv0 * 0x100) * 0x100
                            } else {
                                0int
                            },
                            s2 + 2,
                            n2 + 16,
                        )
                    } else {
                        (
                            if s2 + 1 <= input.len() {
                                input[s2] + cv0 * 0x100
                            } else {
                                0int
                            },
                            s2 + 1,
                            n2 + 8,
                        )
                    };
                    if s3 > input.len() {
                        None
                    } else {
                        let nb = nt - 12;
                        let b3 = (((cv % 0x100) * p2(8 - nb)) % 0x100) as u8;
                        let off = cv / p2(nb) + 2;
                        let count = leaf % 0x100 + 2;
                        if off > dst.len() {
                            None
                        } else if dst.len() + count > size {
                            None
                        } else {
                            decode_loop(nodes, input, size, s3, b3, nb, lz_copy(dst, off, count))
                        }
                    }
                } else {
                    decode_loop(nodes, input, size, s2, b2, n2, dst.push((leaf % 0x100) as u8))
                }
            },
        }
    }
}

#[via_fn]
proof fn decode_loop_decreases(
    nodes: Seq<NodeDSC>,
    input: Seq<u8>,
    size: int,
    src: int,
    bits: u8,
    nbits: int,
    dst: Seq<u8>,
) {
    if dst.len() < size && src < input.len() {
        match decode_symbol(nodes, input, src, bits, nbits, 0) {
            None => {},
            Some((leaf, s2, b2, n2)) => {
                if leaf / 0x100 % 0x100 == 1 {
                    let count = leaf % 0x100 + 2;
                    lemma_lz_copy_len(dst, 0, 0);
                    assert forall|off: int, c: int| c >= 0 implies #[trigger] lz_copy(
                        dst,
                        off,
                        c,
                    ).len() == dst.len() + c by {
                        lemma_lz_copy_len(dst, off, c);
                    }
                }
            },
        }
    }
}

/// What a DSC blob decodes to: the keystream-subtracted code-length
/// table gives a canonical tree, the payload after it is bit-decoded,
/// and the output is zero-padded to the declared size. `None` for a
/// blob too short to hold the tables, a table the node pool cannot
/// hold, or an inconsistent bit stream.
pub open spec fn spec_dsc_decrypt(s: Seq<u8>) -> Option<Seq<u8>> {
    if s.len() < 544 {
        None
    } else {
        let seed = spec_le32(s, 16) as u32;
        let size = spec_le32(s, 20);
        match spec_tree(sorted_records(dsc_lengths(s, seed))) {
            None => None,
            Some(nodes) => match decode_loop(
                nodes,
                s.subrange(544, s.len() as int),
                size,
                0,
                0,
                0,
                Seq::empty(),
            ) {
                None => None,
                Some(dst) => Some(dst + Seq::new((size - dst.len()) as nat, |j: int| 0u8)),
            },
        }
    }
}

/// Decodes the bit stream after the tables into at most `size` bytes.
fn decode_payload(nodes: &Vec<NodeDSC>, crypted: &Vec<u8>, size: u32) -> (r: Result<
    Vec<u8>,
    ArcError,
>)
    requires
        crypted@.len() >= 544,
        nodes@.len() == 1024,
    ensures
        match r {
            Ok(dst) => decode_loop(
                nodes@,
                crypted@.subrange(544, crypted@.len() as int),
                size as int,
                0,
                0,
                0,
                Seq::empty(),
            ) == Some(dst@) && dst@.len() <= size,
            Err(e) => decode_loop(
                nodes@,
                crypted@.subrange(544, crypted@.len() as int),
                size as int,
                0,
                0,
                0,
                Seq::empty(),
            ) is None && e == ArcError::DscDecryptError,
        },
{
    let ghost input = crypted@.subrange(544, crypted@.len() as int);
    let in_len = crypted.len() - 544;
    let mut dst: Vec<u8> = Vec::new();
    let mut src: usize = 0;
    let mut bits: u8 = 0;
    let mut nbits: u32 = 0;
    while src < in_len && dst.len() < size as usize
        invariant
            input == crypted@.subrange(544, crypted@.len() as int),
            in_len == crypted.len() - 544,
            crypted@.len() >= 544,
            nodes@.len() == 1024,
            src <= in_len,
            nbits <= 7,
            dst@.len() <= size,
            decode_loop(nodes@, input, size as int, src as int, bits, nbits as int, dst@)
                == decode_loop(nodes@, input, size as int, 0, 0, 0, Seq::empty()),
        decreases (in_len - src) + (size - dst@.len()),
    {
        let ghost src_at = src as int;
        let ghost bits_at = bits;
        let ghost nbits_at = nbits as int;
        proof {
            assert(src_at < input.len() && dst@.len() < size);
        }
        // walk the tree to a leaf
        let mut entry: usize = 0;
        loop
            invariant
                entry < 1024,
                nodes@.len() == 1024,
                in_len == crypted.len() - 544,
                crypted@.len() >= 544,
                input == crypted@.subrange(544, crypted@.len() as int),
                src_at <= src <= in_len,
                nbits <= 7,
                src_at < input.len(),
                dst@.len() < size,
                decode_symbol(nodes@, input, src as int, bits, nbits as int, entry as int)
                    == decode_symbol(nodes@, input, src_at, bits_at, nbits_at, 0),
                decode_loop(nodes@, input, size as int, src_at, bits_at, nbits_at, dst@)
                    == decode_loop(nodes@, input, size as int, 0, 0, 0, Seq::empty()),
            ensures
                !nodes@[entry as int].has_childs,
                nbits <= 7,
                src_at <= src <= in_len,
                decode_symbol(nodes@, input, src as int, bits, nbits as int, entry as int)
                    == decode_symbol(nodes@, input, src_at, bits_at, nbits_at, 0),
            decreases 1024 - entry,
        {
            if !nodes[entry].has_childs {
                break ;
            }
            if nbits == 0 {
                if src >= in_len {
                    proof {
                        assert(src as int >= input.len());
                        assert(decode_symbol(
                            nodes@,
                            input,
                            src as int,
                            bits,
                            nbits as int,
                            entry as int,
                        ) is None);
                        assert(decode_loop(
                            nodes@,
                            input,
                            size as int,
                            src_at,
                            bits_at,
                            nbits_at,
                            dst@,
                        ) is None);
                    }
                    return Err(ArcError::DscDecryptError);
                }
                proof {
                    assert(input[src as int] == crypted@[544 + src]);
                }
                bits = crypted[544 + src];
                src = src + 1;
                nbits = 8;
            }
            let bit = bits / 128;
            let child = if bit == 0 {
                nodes[entry].child0
            } else {
                nodes[entry].child1
            };
            if child as usize <= entry || child >= 1024 {
                proof {
                    assert(decode_symbol(
                        nodes@,
                        input,
                        src as int,
                        bits,
                        nbits as int,
                        entry as int,
                    ) is None);
                    assert(decode_loop(
                        nodes@,
                        input,
                        size as int,
                        src_at,
                        bits_at,
                        nbits_at,
                        dst@,
                    ) is None);
                }
                return Err(ArcError::DscDecryptError);
            }
            bits = (bits % 128) * 2;
            nbits = nbits - 1;
            entry = child as usize;
        }
        let info = nodes[entry].leaf_value;
        if info / 0x100 % 0x100 == 1 {
            // match token: read the 12-bit descriptor
            let cv0 = bits as u32 / pow2_small(8 - nbits);
            let mut cv: u32;
            let nt: u32;
            if nbits < 4 {
                if src + 2 > in_len {
                    return Err(ArcError::DscDecryptError);
                }
                proof {
                    assert(input[src as int] == crypted@[544 + src]);
                    assert(input[src as int + 1] == crypted@[544 + src + 1]);
                }
                cv = crypted[544 + src + 1] as u32 + (crypted[544 + src] as u32 + cv0 * 0x100)
                    * 0x100;
                src = src + 2;
                nt = nbits + 16;
            } else {
                if src + 1 > in_len {
                    return Err(ArcError::DscDecryptError);
                }
                proof {
                    assert(input[src as int] == crypted@[544 + src]);
                }
                cv = crypted[544 + src] as u32 + cv0 * 0x100;
                src = src + 1;
                nt = nbits + 8;
            }
            let nb = nt - 12;
            let q = pow2_small(8 - nb);
            proof {
                assert((cv % 0x100) * q < 0x1_0000_0000) by (nonlinear_arith)
                    requires
                        q <= 256,
                ;
            }
            bits = (((cv % 0x100) * q) % 0x100) as u8;
            nbits = nb;
            let off = (cv / pow2_small(nb) + 2) as usize;
            let count = (info % 0x100 + 2) as usize;
            if off > dst.len() {
                return Err(ArcError::DscDecryptError);
            }
            if dst.len() as u64 + count as u64 > size as u64 {
                return Err(ArcError::DscDecryptError);
            }
            let ghost dst_at = dst@;
            let mut c: usize = 0;
            while c < count
                invariant
                    c <= count,
                    1 <= off <= dst_at.len(),
                    dst@ == lz_copy(dst_at, off as int, c as int),
                    dst@.len() == dst_at.len() + c,
                decreases count - c,
            {
                proof {
                    lemma_lz_copy_step(dst_at, off as int, c as int);
                }
                let b = dst[dst.len() - off];
                dst.push(b);
                c = c + 1;
            }
            proof {
                assert(dst@ == lz_copy(dst_at, off as int, count as int));
            }
        } else {
            dst.push((info % 0x100) as u8);
        }
    }
    Ok(dst)
}

/// Extends `data` with zeros up to `size` bytes.
fn pad_to(data: &mut Vec<u8>, size: u32)
    requires
        old(data)@.len() <= size,
    ensures
        final(data)@ == old(data)@ + Seq::new((size - old(data)@.len()) as nat, |j: int| 0u8),
{
    let ghost short = data@;
    let n = data.len();
    let mut z: usize = n;
    while z < size as usize
        invariant
            n <= z,
            z <= size || z == n,
            data@ == short + Seq::new((z - n) as nat, |j: int| 0u8),
            n == short.len(),
        decreases size - z,
    {
        data.push(0);
        z = z + 1;
        proof {
            assert(data@ =~= short + Seq::new((z - n) as nat, |j: int| 0u8));
        }
    }
    proof {
        assert(data@ =~= short + Seq::new((size - short.len()) as nat, |j: int| 0u8));
    }
}

/// Decodes a DSC blob: returns the decoded bytes and the declared
/// decoded size (the bytes are zero-padded up to it).
#[verifier::rlimit(100)]
pub fn decrypt(crypted: &Vec<u8>, crypted_size: u32) -> (r: Result<(Vec<u8>, u32), ArcError>)
    requires
        crypted@.len() == crypted_size,
    ensures
        match r {
            Ok(p) => spec_dsc_decrypt(crypted@) == Some(p.0@) && p.1 == spec_le32(crypted@, 20)
                && p.0@.len() == p.1,
            Err(e) => spec_dsc_decrypt(crypted@) is None && if crypted@.len() < 544 {
                e == ArcError::InvalidFormat
            } else {
                e == ArcError::DscDecryptError
            },
        },
{
    if crypted.len() < 544 {
        return Err(ArcError::InvalidFormat);
    }
    let mut pos: usize = 16;
    let seed = read32(crypted, &mut pos);
    let size = read32(crypted, &mut pos);
    let lengths = keystream_sub(crypted, 32, 512, seed);
    proof {
        assert(lengths@ =~= dsc_lengths(crypted@, seed));
    }
    let recs = build_sorted_records(&lengths);
    let nodes = match build_tree(&recs) {
        Ok(n) => n,
        Err(e) => {
            return Err(e);
        },
    };
    let mut data = match decode_payload(&nodes, crypted, size) {
        Ok(d) => d,
        Err(e) => {
            return Err(e);
        },
    };
    pad_to(&mut data, size);
    Ok((data, size))
}

/// Whether decoded DSC bytes look like a raw bitmap: a 16-byte prelude
/// with plausible dimensions, a known depth and eleven zero bytes.
pub open spec fn spec_dsc_is_image(s: Seq<u8>) -> bool {
    &&& s.len() >= 16
    &&& 1 <= crate::decrypt::spec_le16(s, 0) <= 8096
    &&& 1 <= crate::decrypt::spec_le16(s, 2) <= 8096
    &&& (s[4] == 8 || s[4] == 24 || s[4] == 32)
    &&& forall|j: int| 5 <= j < 16 ==> s[j] == 0
}

/// Classifies decoded DSC bytes as a raw bitmap or plain data.
pub fn dsc_is_image(data: &Vec<u8>) -> (r: bool)
    ensures
        r == spec_dsc_is_image(data@),
{
    if data.len() < 16 {
        return false;
    }
    let w = data[0] as u32 + data[1] as u32 * 0x100;
    if w == 0 || w > 8096 {
        return false;
    }
    let h = data[2] as u32 + data[3] as u32 * 0x100;
    if h == 0 || h > 8096 {
        return false;
    }
    let bpp = data[4];
    if bpp != 8 && bpp != 24 && bpp != 32 {
        return false;
    }
    let mut j: usize = 5;
    while j < 16
        invariant
            5 <= j <= 16,
            data@.len() >= 16,
            forall|t: int| 5 <= t < j ==> data@[t] == 0,
        decreases 16 - j,
    {
        if data[j] != 0 {
            return false;
        }
        j = j + 1;
    }
    true
}

/// Component `c` (red, green, blue, alpha) of pixel `p` of a raw DSC
/// bitmap: the stored order is grayscale, BGR or BGRA.
pub open spec fn dsc_pixel_byte(s: Seq<u8>, p: int, c: int) -> u8 {
    let bpp = s[4] as int;
    if bpp == 8 {
        if c == 3 {
            255u8
        } else {
            s[16 + p]
        }
    } else if bpp == 24 {
        if c == 3 {
            255u8
        } else {
            s[16 + 3 * p + (2 - c)]
        }
    } else {
        if c == 3 {
            s[16 + 4 * p + 3]
        } else {
            s[16 + 4 * p + (2 - c)]
        }
    }
}

/// The RGBA image a raw DSC bitmap denotes.
pub open spec fn spec_render_image(s: Seq<u8>) -> Seq<u8> {
    let w = crate::decrypt::spec_le16(s, 0);
    let h = crate::decrypt::spec_le16(s, 2);
    Seq::new((w * h * 4) as nat, |i: int| dsc_pixel_byte(s, i / 4, i % 4))
}

/// Whether the buffer really holds all the pixel bytes the prelude
/// announces.
pub open spec fn spec_renderable(s: Seq<u8>) -> bool {
    spec_dsc_is_image(s) && s.len() >= 16 + crate::decrypt::spec_le16(s, 0)
        * crate::decrypt::spec_le16(s, 2) * (s[4] as int / 8)
}

/// Converts a raw DSC bitmap to RGBA rows, returning width and height.
pub fn render_image(data: &Vec<u8>) -> (r: Result<(Vec<u8>, u16, u16), ArcError>)
    ensures
        r is Ok <==> spec_renderable(data@),
        match r {
            Ok(t) => t.0@ == spec_render_image(data@) && t.1 == crate::decrypt::spec_le16(data@, 0)
                && t.2 == crate::decrypt::spec_le16(data@, 2),
            Err(e) => e == ArcError::InvalidFormat,
        },
{
    if !dsc_is_image(data) {
        return Err(ArcError::InvalidFormat);
    }
    let w = (data[0] as u32 + data[1] as u32 * 0x100) as usize;
    let h = (data[2] as u32 + data[3] as u32 * 0x100) as usize;
    let bpp = data[4];
    let stride: usize = if bpp == 8 {
        1
    } else if bpp == 24 {
        3
    } else {
        4
    };
    proof {
        assert(w * h <= 8096 * 8096) by (nonlinear_arith)
            requires
                1 <= w <= 8096,
                1 <= h <= 8096,
        ;
        assert(w * h * stride <= 8096 * 8096 * 4) by (nonlinear_arith)
            requires
                w * h <= 8096 * 8096,
                1 <= stride <= 4,
        ;
    }
    let count = w * h;
    if data.len() < 16 + count * stride {
        return Err(ArcError::InvalidFormat);
    }
    let mut px: Vec<u8> = Vec::new();
    let mut p: usize = 0;
    while p < count
        invariant
            p <= count,
            count == w * h,
            1 <= w <= 8096,
            1 <= h <= 8096,
            stride == data@[4] as int / 8,
            bpp == data@[4],
            (data@[4] == 8 || data@[4] == 24 || data@[4] == 32),
            (stride == 1 || stride == 3 || stride == 4),
            stride == 1 <==> data@[4] == 8,
            stride == 3 <==> data@[4] == 24,
            data@.len() >= 16 + count * stride,
            count * stride <= 8096 * 8096 * 4,
            px@.len() == 4 * p,
            forall|i: int| 0 <= i < 4 * p ==> px@[i] == dsc_pixel_byte(data@, i / 4, i % 4),
        decreases count - p,
    {
        proof {
            assert(p * stride + stride <= count * stride) by (nonlinear_arith)
                requires
                    p < count,
                    1 <= stride,
            ;
        }
        let base = 16 + p * stride;
        let (rr, gg, bb, aa) = if bpp == 8 {
            (data[base], data[base], data[base], 255u8)
        } else if bpp == 24 {
            (data[base + 2], data[base + 1], data[base], 255u8)
        } else {
            (data[base + 2], data[base + 1], data[base], data[base + 3])
        };
        px.push(rr);
        px.push(gg);
        px.push(bb);
        px.push(aa);
        p = p + 1;
        proof {
            assert forall|i: int| 0 <= i < 4 * p implies px@[i] == dsc_pixel_byte(
                data@,
                i / 4,
                i % 4,
            ) by {
                let q = p - 1;
                if i >= 4 * q {
                    let c = i % 4;
                    assert(i / 4 == q);
                    assert(i == 4 * q + c);
                    assert(px@[4 * q] == rr && px@[4 * q + 1] == gg && px@[4 * q + 2] == bb
                        && px@[4 * q + 3] == aa);
                    if bpp == 8 {
                        assert(base == 16 + q * 1);
                        assert(base == 16 + q);
                    } else if bpp == 24 {
                        assert(base == 16 + q * 3);
                        assert(base == 16 + 3 * q);
                    } else {
                        assert(base == 16 + q * 4);
                        assert(base == 16 + 4 * q);
                    }
                }
            }
        }
    }
    proof {
        assert(px@ =~= spec_render_image(data@));
    }
    let w16 = (data[0] as u16) + (data[1] as u16) * 0x100;
    let h16 = (data[2] as u16) + (data[3] as u16) * 0x100;
    Ok((px, w16, h16))
}

} // verus!
