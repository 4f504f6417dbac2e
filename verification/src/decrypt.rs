//! Little-endian byte readers over an in-memory buffer, word accessors,
//! and the 32-bit keystream generator shared by the CBG and DSC codecs.

use vstd::prelude::*;

verus! {

/// The little-endian 16-bit value stored at offset `i` of `s`.
pub open spec fn spec_le16(s: Seq<u8>, i: int) -> int {
    s[i] + 0x100 * s[i + 1]
}

/// The little-endian 32-bit value stored at offset `i` of `s`.
pub open spec fn spec_le32(s: Seq<u8>, i: int) -> int {
    s[i] + 0x100 * s[i + 1] + 0x1_0000 * s[i + 2] + 0x100_0000 * s[i + 3]
}

/// Reads one byte at `*pos` and advances the cursor.
pub fn read8(data: &Vec<u8>, pos: &mut usize) -> (r: u8)
    requires
        *old(pos) + 1 <= data.len(),
    ensures
        *final(pos) == *old(pos) + 1,
        r == data@[*old(pos) as int],
{
    let r = data[*pos];
    *pos = *pos + 1;
    r
}

/// Reads a little-endian `u16` at `*pos` and advances the cursor.
pub fn read16(data: &Vec<u8>, pos: &mut usize) -> (r: u16)
    requires
        *old(pos) + 2 <= data.len(),
    ensures
        *final(pos) == *old(pos) + 2,
        r == spec_le16(data@, *old(pos) as int),
{
    let p = *pos;
    let r = data[p] as u16 + data[p + 1] as u16 * 0x100;
    *pos = p + 2;
    r
}

/// Reads a little-endian `u32` at `*pos` and advances the cursor.
pub fn read32(data: &Vec<u8>, pos: &mut usize) -> (r: u32)
    requires
        *old(pos) + 4 <= data.len(),
    ensures
        *final(pos) == *old(pos) + 4,
        r == spec_le32(data@, *old(pos) as int),
{
    let p = *pos;
    let r = data[p] as u32 + data[p + 1] as u32 * 0x100 + data[p + 2] as u32 * 0x1_0000
        + data[p + 3] as u32 * 0x100_0000;
    *pos = p + 4;
    r
}

/// The four little-endian bytes of `v`.
pub open spec fn spec_le_bytes32(v: int) -> Seq<u8> {
    seq![
        (v % 0x100) as u8,
        (v / 0x100 % 0x100) as u8,
        (v / 0x1_0000 % 0x100) as u8,
        (v / 0x100_0000 % 0x100) as u8,
    ]
}

/// Pushes the four little-endian bytes of `v`.
pub fn push_le32(r: &mut Vec<u8>, v: u32)
    ensures
        final(r)@ == old(r)@ + spec_le_bytes32(v as int),
{
    r.push((v % 0x100) as u8);
    r.push((v / 0x100 % 0x100) as u8);
    r.push((v / 0x1_0000 % 0x100) as u8);
    r.push((v / 0x100_0000 % 0x100) as u8);
    proof {
        assert(r@ =~= old(r)@ + spec_le_bytes32(v as int));
    }
}

/// Drops the first `n` bytes of a buffer.
pub fn drop_prefix(data: Vec<u8>, n: usize) -> (r: Vec<u8>)
    requires
        n <= data@.len(),
    ensures
        r@ == data@.subrange(n as int, data@.len() as int),
{
    let len = data.len();
    let mut r: Vec<u8> = Vec::new();
    let mut i: usize = n;
    while i < len
        invariant
            n <= i <= len,
            len == data@.len(),
            r@ == data@.subrange(n as int, i as int),
        decreases len - i,
    {
        r.push(data[i]);
        i = i + 1;
        proof {
            assert(r@ =~= data@.subrange(n as int, i as int));
        }
    }
    r
}

/// The high 16 bits of `v`.
pub fn my_hiword(v: u32) -> (r: u16)
    ensures
        r == v as int / 0x1_0000,
{
    (v / 0x1_0000) as u16
}

/// The low 16 bits of `v`.
pub fn my_loword(v: u32) -> (r: u16)
    ensures
        r == v as int % 0x1_0000,
{
    (v % 0x1_0000) as u16
}

/// The intermediate 32-bit accumulator of one keystream step: all
/// arithmetic is 32-bit wrapping, written here over `int` with explicit
/// truncation.
pub open spec fn hash_eax(h: u32) -> int {
    let lo = h as int % 0x1_0000;
    let hi = h as int / 0x1_0000;
    let edx = 20021 * lo;
    (20021 * hi + 346 * h + edx / 0x1_0000) % 0x1_0000_0000
}

/// The successor hash state after one keystream step.
pub open spec fn hash_next(h: u32) -> u32 {
    let edx = 20021 * (h as int % 0x1_0000);
    ((((hash_eax(h) % 0x1_0000) * 0x1_0000) + edx % 0x1_0000 + 1) % 0x1_0000_0000) as u32
}

/// The 15-bit value one keystream step yields.
pub open spec fn hash_draw(h: u32) -> u32 {
    (hash_eax(h) % 0x8000) as u32
}

/// Powers of two up to `2^8`, written out so every use unfolds.
pub open spec fn p2(s: int) -> int {
    if s <= 0 {
        1
    } else if s == 1 {
        2
    } else if s == 2 {
        4
    } else if s == 3 {
        8
    } else if s == 4 {
        16
    } else if s == 5 {
        32
    } else if s == 6 {
        64
    } else if s == 7 {
        128
    } else {
        256
    }
}

/// `2^s` for the five rotate amounts, as a run-time value.
pub fn pow2_small(s: u32) -> (r: u32)
    requires
        s <= 8,
    ensures
        r == p2(s as int),
        1 <= r <= 256,
{
    if s == 0 {
        1
    } else if s == 1 {
        2
    } else if s == 2 {
        4
    } else if s == 3 {
        8
    } else if s == 4 {
        16
    } else if s == 5 {
        32
    } else if s == 6 {
        64
    } else if s == 7 {
        128
    } else {
        256
    }
}

/// The keystream state after `n` steps from `seed`.
pub open spec fn hash_state(seed: u32, n: nat) -> u32
    decreases n,
{
    if n == 0 {
        seed
    } else {
        hash_next(hash_state(seed, (n - 1) as nat))
    }
}

/// The byte subtracted from position `n` of a keystream-encrypted
/// region that starts at state `seed`.
pub open spec fn keystream_byte(seed: u32, n: nat) -> u8 {
    (hash_draw(hash_state(seed, n)) % 0x100) as u8
}

/// Position `n` of such a region, decrypted: the source byte minus the
/// keystream byte, mod 256. (Opaque: callers treat decrypted bytes
/// symbolically; only `keystream_sub` computes them.)
#[verifier::opaque]
pub open spec fn sub_byte(b: u8, seed: u32, n: nat) -> u8 {
    ((b + 0x100 - keystream_byte(seed, n)) % 0x100) as u8
}

/// Decrypts `count` bytes of `src` starting at `start` by subtracting
/// the keystream drawn from `seed`.
pub fn keystream_sub(src: &Vec<u8>, start: usize, count: usize, seed: u32) -> (r: Vec<u8>)
    requires
        start + count <= src.len(),
    ensures
        r@.len() == count,
        forall|j: int| 0 <= j < count ==> r@[j] == sub_byte(src@[start + j], seed, j as nat),
{
    let mut r: Vec<u8> = Vec::new();
    let mut hash = seed;
    let mut j: usize = 0;
    while j < count
        invariant
            j <= count,
            start + count <= src.len(),
            hash == hash_state(seed, j as nat),
            r@.len() == j,
            forall|t: int| 0 <= t < j ==> r@[t] == sub_byte(src@[start + t], seed, t as nat),
        decreases count - j,
    {
        proof {
            reveal(sub_byte);
        }
        let draw = hash_update(&mut hash);
        let b = src[start + j] as u32;
        r.push(((b + 0x100 - draw % 0x100) % 0x100) as u8);
        j = j + 1;
    }
    r
}

/// Advances the keystream state and returns the 15-bit draw of this step.
pub fn hash_update(hash_val: &mut u32) -> (r: u32)
    ensures
        *final(hash_val) == hash_next(*old(hash_val)),
        r == hash_draw(*old(hash_val)),
{
    let h = *hash_val as u64;
    let lo = h % 0x1_0000;
    let hi = h / 0x1_0000;
    let edx = 20021 * lo;
    let eax = (20021 * hi + 346 * h + edx / 0x1_0000) % 0x1_0000_0000;
    *hash_val = (((eax % 0x1_0000) * 0x1_0000 + edx % 0x1_0000 + 1) % 0x1_0000_0000) as u32;
    (eax % 0x8000) as u32
}

} // verus!
