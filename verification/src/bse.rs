//! The BSE descrambling layer: the first 64 bytes after the 8-byte
//! magic header are restored by a seeded permutation of rotate-and-
//! subtract steps, then validated against a sum and an xor checksum.

use vstd::prelude::*;
use crate::decrypt::{spec_le32, p2, pow2_small};
use crate::error::ArcError;

verus! {

/// The image of `-1496474763_i32` (the generator's xor constant) in a
/// 32-bit unsigned word.
pub open spec fn bse_xor_const() -> u32 {
    0xA6CD_9B75u32
}

/// An 8-bit rotate left by `s` (for `0 <= b < 256`, `0 <= s < 8`).
pub open spec fn rot_l8(b: int, s: int) -> int {
    (b * p2(s)) % 256 + (b * p2(s)) / 256
}

/// An 8-bit rotate right by `s` (for `0 <= b < 256`, `0 <= s < 8`).
pub open spec fn rot_r8(b: int, s: int) -> int {
    b / p2(s) + (b % p2(s)) * p2(8 - s)
}

/// An arithmetic shift right by 8 of a signed 32-bit value, over its
/// unsigned image.
pub open spec fn asr8(x: u32) -> int {
    if x >= 0x8000_0000 {
        x / 0x100 + 0xFF00_0000
    } else {
        x as int / 0x100
    }
}

/// The successor state of the BSE generator. All arithmetic is 32-bit
/// wrapping over the signed generator state's unsigned image; the final
/// step is a 16-bit rotation. (Opaque: callers reason about generator
/// states symbolically; only `bse_rand` computes one.)
#[verifier::opaque]
pub open spec fn bse_next(s: u32) -> u32 {
    let m = ((s * 257) % 0x1_0000_0000) as u32;
    let t0 = ((asr8(m) + s * 97 + 23) % 0x1_0000_0000) as u32;
    let t = t0 ^ bse_xor_const();
    ((t % 0x1_0000) * 0x1_0000 + t / 0x1_0000) as u32
}

/// The 15-bit draw a generator step yields (taken from the new state).
pub open spec fn bse_draw(s: u32) -> u32 {
    (bse_next(s) % 0x8000) as u32
}

/// Advances the BSE generator and returns this step's 15-bit draw.
pub fn bse_rand(seed: &mut u32) -> (r: u32)
    ensures
        *final(seed) == bse_next(*old(seed)),
        r == bse_draw(*old(seed)),
        r < 0x8000,
{
    proof {
        reveal(bse_next);
    }
    let s = *seed as u64;
    let m = (s * 257) % 0x1_0000_0000;
    let a: u64 = if m >= 0x8000_0000 {
        m / 0x100 + 0xFF00_0000
    } else {
        m / 0x100
    };
    let t0 = ((a + s * 97 + 23) % 0x1_0000_0000) as u32;
    let t = t0 ^ 0xA6CD_9B75u32;
    let s2 = ((t as u64 % 0x1_0000) * 0x1_0000 + t as u64 / 0x1_0000) as u32;
    *seed = s2;
    s2 % 0x8000
}

/// Wrap-around of a forward scan position in the 64-slot table.
pub open spec fn wrap64(i: int) -> int {
    if i >= 64 {
        i - 64
    } else {
        i
    }
}

/// Linear probing over the 64-entry `visited` table: the first unmarked
/// slot at or after `i`, scanning forward with wrap-around.
pub open spec fn probe(v: Seq<bool>, i: int, fuel: nat) -> int
    decreases fuel,
{
    if fuel == 0 {
        i
    } else if v[i] {
        probe(v, if i == 63 { 0 } else { i + 1 }, (fuel - 1) as nat)
    } else {
        i
    }
}

/// One descrambling step: four draws pick the target slot, the rotation
/// amount, the rotation direction and the subtrahend.
pub open spec fn bse_step(s: u32, d: Seq<u8>, v: Seq<bool>) -> (u32, Seq<u8>, Seq<bool>) {
    let s1 = bse_next(s);
    let i = probe(v, ((s1 % 0x8000) % 64) as int, 64);
    let s2 = bse_next(s1);
    let sh = (s2 % 0x8000) % 8;
    let s3 = bse_next(s2);
    let k = s3 % 0x8000;
    let s4 = bse_next(s3);
    let r = s4 % 0x8000;
    let b = (d[i] + 256 - r % 256) % 256;
    let b2 = if k % 2 == 1 {
        rot_l8(b, sh as int)
    } else {
        rot_r8(b, sh as int)
    };
    (s4, d.update(i, b2 as u8), v.update(i, true))
}

/// `n` descrambling steps from the given state.
pub open spec fn bse_run(s: u32, d: Seq<u8>, v: Seq<bool>, n: nat) -> (u32, Seq<u8>, Seq<bool>)
    decreases n,
{
    if n == 0 {
        (s, d, v)
    } else {
        let prev = bse_run(s, d, v, (n - 1) as nat);
        bse_step(prev.0, prev.1, prev.2)
    }
}

/// The descrambled 64-byte block for a scrambled block `d` under seed
/// `s`.
pub open spec fn bse_descramble(s: u32, d: Seq<u8>) -> Seq<u8> {
    bse_run(s, d, Seq::new(64, |j: int| false), 64).1
}

/// The byte sum of a sequence (unreduced).
pub open spec fn sum8(s: Seq<u8>) -> int
    decreases s.len(),
{
    if s.len() == 0 {
        0
    } else {
        sum8(s.drop_last()) + s.last()
    }
}

/// The byte xor of a sequence.
pub open spec fn xor8(s: Seq<u8>) -> u8
    decreases s.len(),
{
    if s.len() == 0 {
        0
    } else {
        xor8(s.drop_last()) ^ s.last()
    }
}

/// Whether the descrambled block of `s` agrees with the sum and xor
/// checksums declared in the validation prelude at offsets 10 and 11.
pub open spec fn spec_checksum_ok(s: Seq<u8>) -> bool {
    sum8(s.subrange(16, 80)) % 256 == s[10] && xor8(s.subrange(16, 80)) == s[11]
}

/// Whether `data` announces the BSE layer (magic plus a minimum size).
pub fn is_valid(data: &Vec<u8>, size: u32) -> (r: bool)
    requires
        data@.len() >= size,
    ensures
        r == (size >= 80 && data@.subrange(0, 7) == bse_magic()),
{
    if size < 80 {
        return false;
    }
    let r = data[0] == 0x42 && data[1] == 0x53 && data[2] == 0x45 && data[3] == 0x20 && data[4]
        == 0x31 && data[5] == 0x2E && data[6] == 0x30;
    proof {
        if r {
            assert(data@.subrange(0, 7) =~= bse_magic());
        } else {
            assert forall|j: int| 0 <= j < 7 implies data@.subrange(0, 7)[j] == data@[j] by {}
        }
    }
    r
}

/// The bytes of `"BSE 1.0"`.
pub open spec fn bse_magic() -> Seq<u8> {
    seq![0x42u8, 0x53u8, 0x45u8, 0x20u8, 0x31u8, 0x2Eu8, 0x30u8]
}

/// Count of marked slots.
pub open spec fn count_true(s: Seq<bool>) -> int
    decreases s.len(),
{
    if s.len() == 0 {
        0
    } else {
        count_true(s.drop_last()) + if s.last() {
            1int
        } else {
            0int
        }
    }
}

/// Marking an unmarked slot raises the count by one.
proof fn lemma_count_update(s: Seq<bool>, i: int)
    requires
        0 <= i < s.len(),
        !s[i],
    ensures
        count_true(s.update(i, true)) == count_true(s) + 1,
    decreases s.len(),
{
    if i == s.len() - 1 {
        assert(s.update(i, true).drop_last() =~= s.drop_last());
    } else {
        assert(s.update(i, true).drop_last() =~= s.drop_last().update(i, true));
        lemma_count_update(s.drop_last(), i);
    }
}

/// The count never exceeds the length.
proof fn lemma_count_bound(s: Seq<bool>)
    ensures
        count_true(s) <= s.len(),
    decreases s.len(),
{
    if s.len() > 0 {
        lemma_count_bound(s.drop_last());
    }
}

/// If some slot within the remaining fuel is unmarked, probing ends on
/// an unmarked slot.
proof fn lemma_probe_free(v: Seq<bool>, i: int, fuel: nat)
    requires
        v.len() == 64,
        0 <= i < 64,
        fuel <= 64,
        exists|t: int| 0 <= t < fuel && !v[#[trigger] wrap64(i + t)],
    ensures
        !v[probe(v, i, fuel)],
        0 <= probe(v, i, fuel) < 64,
    decreases fuel,
{
    let t0 = choose|t: int| 0 <= t < fuel && !v[#[trigger] wrap64(i + t)];
    if !v[i] {
        assert(wrap64(i + 0) == i);
    } else {
        let i2 = if i == 63 {
            0
        } else {
            i + 1
        };
        assert(wrap64(i + 0) == i);
        assert(t0 >= 1);
        let t1 = t0 - 1;
        assert(0 <= t1 < fuel - 1 && !v[wrap64(i2 + t1)]) by {
            if i == 63 {
                assert(wrap64(i2 + t1) == wrap64(i + t0));
            } else {
                assert(wrap64(i2 + t1) == wrap64(i + t0));
            }
        }
        lemma_probe_free(v, i2, (fuel - 1) as nat);
    }
}

/// After `n <= 64` steps exactly `n` slots are marked.
proof fn lemma_run_count(s: u32, d: Seq<u8>, n: nat)
    requires
        d.len() == 64,
        n <= 64,
    ensures
        bse_run(s, d, Seq::new(64, |j: int| false), n).2.len() == 64,
        count_true(bse_run(s, d, Seq::new(64, |j: int| false), n).2) == n,
        bse_run(s, d, Seq::new(64, |j: int| false), n).1.len() == 64,
    decreases n,
{
    let v0 = Seq::new(64, |j: int| false);
    if n == 0 {
        lemma_count_empty(v0);
    } else {
        lemma_run_count(s, d, (n - 1) as nat);
        let prev = bse_run(s, d, v0, (n - 1) as nat);
        let s1 = bse_next(prev.0);
        let start = ((s1 % 0x8000) % 64) as int;
        // some slot is unmarked, so the probe lands on one
        assert(count_true(prev.2) < 64);
        lemma_exists_free(prev.2);
        let p = choose|j: int| 0 <= j < 64 && !prev.2[j];
        let t = if p >= start {
            p - start
        } else {
            p - start + 64
        };
        assert(0 <= t < 64 && !prev.2[wrap64(start + t)]);
        lemma_probe_free(prev.2, start, 64);
        lemma_count_update(prev.2, probe(prev.2, start, 64));
    }
}

/// An all-false table has count zero.
proof fn lemma_count_empty(v: Seq<bool>)
    requires
        forall|j: int| 0 <= j < v.len() ==> !v[j],
    ensures
        count_true(v) == 0,
    decreases v.len(),
{
    if v.len() > 0 {
        assert forall|j: int| 0 <= j < v.drop_last().len() implies !v.drop_last()[j] by {
            assert(v.drop_last()[j] == v[j]);
        }
        lemma_count_empty(v.drop_last());
    }
}

/// A not-fully-marked 64-slot table has an unmarked slot.
proof fn lemma_exists_free(v: Seq<bool>)
    requires
        v.len() == 64,
        count_true(v) < 64,
    ensures
        exists|j: int| 0 <= j < 64 && !v[j],
{
    if forall|j: int| 0 <= j < 64 ==> v[j] {
        lemma_count_all(v);
    }
}

/// A fully marked table has a full count.
proof fn lemma_count_all(v: Seq<bool>)
    requires
        forall|j: int| 0 <= j < v.len() ==> v[j],
    ensures
        count_true(v) == v.len(),
    decreases v.len(),
{
    if v.len() > 0 {
        assert forall|j: int| 0 <= j < v.drop_last().len() implies v.drop_last()[j] by {
            assert(v.drop_last()[j] == v[j]);
        }
        lemma_count_all(v.drop_last());
    }
}

/// Rotates the byte `b` left by `s`.
fn rotl8(b: u32, s: u32) -> (r: u32)
    requires
        b < 256,
        s < 8,
    ensures
        r == rot_l8(b as int, s as int),
        r < 256,
{
    let p = pow2_small(s);
    proof {
        assert(b * p < 0x10000) by (nonlinear_arith)
            requires
                b < 256,
                p <= 256,
        ;
    }
    let x = b * p;
    let r = x % 256 + x / 256;
    proof {
        assert(x % 256 + x / 256 < 256) by (nonlinear_arith)
            requires
                0 <= x,
                x == b * p2(s as int),
                b < 256,
                0 <= s < 8,
        {
            assert(p2(s as int) >= 1);
            assert(x < 256 * p2(s as int));
            assert(x / 256 < p2(s as int));
            assert(x % 256 == ((b as int) % (256int / p2(s as int))) * p2(s as int));
        }
    }
    r
}

/// Rotates the byte `b` right by `s`.
fn rotr8(b: u32, s: u32) -> (r: u32)
    requires
        b < 256,
        s < 8,
    ensures
        r == rot_r8(b as int, s as int),
        r < 256,
{
    let p = pow2_small(s);
    let q = pow2_small(8 - s);
    let m = b % p;
    proof {
        assert(m * q < 0x10000) by (nonlinear_arith)
            requires
                m < 256,
                q <= 256,
        ;
    }
    let r = b / p + m * q;
    proof {
        assert(b / p + m * q < 256 && b / p + m * q == rot_r8(b as int, s as int))
            by (nonlinear_arith)
            requires
                b < 256,
                0 <= s < 8,
                m == b % p,
                p == p2(s as int),
                q == p2(8 - (s as int)),
        {
            assert(p * q == 256);
            assert(m < p);
            assert(m * q <= (p - 1) * q);
            assert(b / p < q);
        }
    }
    r
}

/// Descrambles the 64 bytes at offsets 16..80 in place, then checks
/// them against the declared sum and xor checksums. Everything outside
/// that window is left untouched; `Ok` is returned exactly when both
/// checksums agree.
#[verifier::rlimit(100)]
#[verifier::spinoff_prover]
pub fn decrypt(data: &mut Vec<u8>) -> (r: Result<(), ArcError>)
    requires
        old(data)@.len() >= 80,
    ensures
        final(data)@.len() == old(data)@.len(),
        final(data)@.subrange(0, 16) == old(data)@.subrange(0, 16),
        final(data)@.subrange(80, old(data)@.len() as int) == old(data)@.subrange(
            80,
            old(data)@.len() as int,
        ),
        final(data)@.subrange(16, 80) == bse_descramble(
            spec_le32(old(data)@, 12) as u32,
            old(data)@.subrange(16, 80),
        ),
        r is Ok <==> spec_checksum_ok(final(data)@),
        r is Err ==> r == Err::<(), ArcError>(ArcError::BseDecryptError),
{
    let ghost orig = data@;
    let ghost seed0 = spec_le32(orig, 12) as u32;
    let ghost d0 = orig.subrange(16, 80);
    let ghost v0 = Seq::new(64, |j: int| false);
    let sum_check = data[10];
    let xor_check = data[11];
    let mut hash: u32 = data[12] as u32 + data[13] as u32 * 0x100 + data[14] as u32 * 0x1_0000
        + data[15] as u32 * 0x100_0000;
    let mut flags: Vec<bool> = Vec::new();
    let mut f: usize = 0;
    while f < 64
        invariant
            f <= 64,
            flags@ =~= Seq::new(f as nat, |j: int| false),
        decreases 64 - f,
    {
        flags.push(false);
        f = f + 1;
        proof {
            assert(flags@ =~= Seq::new(f as nat, |j: int| false));
        }
    }
    let mut k: usize = 0;
    while k < 64
        invariant
            k <= 64,
            orig.len() >= 80,
            seed0 == spec_le32(orig, 12),
            d0 == orig.subrange(16, 80),
            v0 == Seq::new(64, |j: int| false),
            data@.len() == orig.len(),
            data@.subrange(0, 16) == orig.subrange(0, 16),
            data@.subrange(80, orig.len() as int) == orig.subrange(80, orig.len() as int),
            flags@.len() == 64,
            hash == bse_run(seed0, d0, v0, k as nat).0,
            data@.subrange(16, 80) == bse_run(seed0, d0, v0, k as nat).1,
            flags@ == bse_run(seed0, d0, v0, k as nat).2,
        decreases 64 - k,
    {
        let ghost st = bse_run(seed0, d0, v0, k as nat);
        let r1 = bse_rand(&mut hash);
        let mut i: usize = (r1 % 64) as usize;
        let ghost i0 = i as int;
        proof {
            lemma_run_count(seed0, d0, k as nat);
            lemma_exists_free(flags@);
        }
        let mut j: usize = 0;
        while flags[i]
            invariant
                0 <= i < 64,
                j <= 64,
                flags@.len() == 64,
                i as int == wrap64(i0 + j),
                0 <= i0 < 64,
                count_true(flags@) < 64,
                forall|t: int| 0 <= t < j ==> flags@[#[trigger] wrap64(i0 + t)],
                probe(flags@, i0, 64) == probe(flags@, i as int, (64 - j) as nat),
            decreases 64 - j,
        {
            proof {
                assert(flags@[wrap64(i0 + j)]);
                if j >= 63 {
                    assert forall|q: int| 0 <= q < 64 implies flags@[q] by {
                        let t = if q >= i0 {
                            q - i0
                        } else {
                            q - i0 + 64
                        };
                        assert(0 <= t < 64);
                        assert(flags@[wrap64(i0 + t)]);
                        assert(wrap64(i0 + t) == q);
                    }
                    lemma_count_all(flags@);
                }
                assert(j < 63);
            }
            i = if i == 63 {
                0
            } else {
                i + 1
            };
            j = j + 1;
        }
        proof {
            assert(probe(flags@, i as int, (64 - j) as nat) == i as int);
            assert(probe(flags@, i0, 64) == i as int);
        }
        let r2 = bse_rand(&mut hash);
        let sh = r2 % 8;
        let kd = bse_rand(&mut hash);
        let r4 = bse_rand(&mut hash);
        let b = data[16 + i] as u32;
        let sub = (b + 256 - r4 % 256) % 256;
        let rot = if kd % 2 == 1 {
            rotl8(sub, sh)
        } else {
            rotr8(sub, sh)
        };
        data[16 + i] = rot as u8;
        flags[i] = true;
        k = k + 1;
        proof {
            let stepped = bse_step(st.0, st.1, st.2);
            assert(bse_run(seed0, d0, v0, k as nat) == stepped);
            assert(st.1[i as int] == b);
            assert(data@.subrange(16, 80) =~= st.1.update(i as int, rot as u8));
            assert(data@.subrange(0, 16) =~= orig.subrange(0, 16));
            assert(data@.subrange(80, orig.len() as int) =~= orig.subrange(
                80,
                orig.len() as int,
            ));
        }
    }
    // checksum over the descrambled window
    let ghost done = data@;
    let mut sum_data: u8 = 0;
    let mut xor_data: u8 = 0;
    let mut c: usize = 16;
    while c < 80
        invariant
            16 <= c <= 80,
            data@ == done,
            done.len() >= 80,
            sum_data == sum8(done.subrange(16, c as int)) % 256,
            xor_data == xor8(done.subrange(16, c as int)),
        decreases 80 - c,
    {
        let ghost pre = done.subrange(16, c as int);
        sum_data = sum_data.wrapping_add(data[c]);
        xor_data = xor_data ^ data[c];
        c = c + 1;
        proof {
            assert(done.subrange(16, c as int).drop_last() =~= pre);
            assert(done.subrange(16, c as int).last() == done[c - 1]);
            vstd::arithmetic::div_mod::lemma_add_mod_noop(sum8(pre), done[c - 1] as int, 256);
        }
    }
    proof {
        assert(done.subrange(16, 80) =~= done.subrange(16, 80int));
        assert(data@[10] == orig[10] && data@[11] == orig[11]) by {
            assert(data@.subrange(0, 16)[10] == data@[10]);
            assert(orig.subrange(0, 16)[10] == orig[10]);
            assert(data@.subrange(0, 16)[11] == data@[11]);
            assert(orig.subrange(0, 16)[11] == orig[11]);
        }
    }
    if sum_data == sum_check && xor_data == xor_check {
        Ok(())
    } else {
        Err(ArcError::BseDecryptError)
    }
}

/// A single corrupted byte in a 64-byte block shifts its sum, so the
/// declared checksums cannot both hold for the corrupted block.
pub proof fn lemma_single_byte_corruption(a: Seq<u8>, b: Seq<u8>, i: int)
    requires
        a.len() == 64,
        b.len() == 64,
        0 <= i < 64,
        forall|j: int| 0 <= j < 64 && j != i ==> a[j] == b[j],
        a[i] != b[i],
    ensures
        sum8(a) % 256 != sum8(b) % 256 || xor8(a) != xor8(b),
{
    lemma_sum8_pointwise(a, b, i);
    lemma_sum8_nonneg(a);
    lemma_sum8_nonneg(b);
    let d = a[i] - b[i];
    assert(-256 < d < 256 && d != 0);
    vstd::arithmetic::div_mod::lemma_add_mod_noop(sum8(b), d, 256);
    if sum8(a) % 256 == sum8(b) % 256 {
        assert((sum8(b) % 256 + d % 256) % 256 == sum8(b) % 256);
        if d > 0 {
            assert(d % 256 == d);
            vstd::arithmetic::div_mod::lemma_mod_bound(sum8(b), 256);
            vstd::arithmetic::div_mod::lemma_small_mod((sum8(b) % 256 + d) as nat, 256nat);
            assert(false);
        } else {
            assert(d % 256 == d + 256);
            vstd::arithmetic::div_mod::lemma_mod_bound(sum8(b), 256);
            let w = sum8(b) % 256 + d + 256;
            assert(0 <= w < 512);
            if w < 256 {
                vstd::arithmetic::div_mod::lemma_small_mod(w as nat, 256nat);
            } else {
                vstd::arithmetic::div_mod::lemma_mod_sub_multiples_vanish(w - 256, 256);
                vstd::arithmetic::div_mod::lemma_small_mod((w - 256) as nat, 256nat);
            }
            assert(false);
        }
    }
}

/// Sums of two blocks that differ only at `i` differ by exactly the
/// bytes' difference.
proof fn lemma_sum8_pointwise(a: Seq<u8>, b: Seq<u8>, i: int)
    requires
        a.len() == b.len(),
        0 <= i < a.len(),
        forall|j: int| 0 <= j < a.len() && j != i ==> a[j] == b[j],
    ensures
        sum8(a) - sum8(b) == a[i] - b[i],
    decreases a.len(),
{
    if i == a.len() - 1 {
        assert(a.drop_last() =~= b.drop_last());
    } else {
        assert forall|j: int|
            0 <= j < a.drop_last().len() && j != i implies a.drop_last()[j] == b.drop_last()[j] by {
            assert(a.drop_last()[j] == a[j]);
        }
        lemma_sum8_pointwise(a.drop_last(), b.drop_last(), i);
    }
}

/// Byte sums are non-negative.
proof fn lemma_sum8_nonneg(s: Seq<u8>)
    ensures
        sum8(s) >= 0,
    decreases s.len(),
{
    if s.len() > 0 {
        lemma_sum8_nonneg(s.drop_last());
    }
}

} // verus!
