//! The engine's OGG audio prelude: a 64-byte header placed in front of a
//! plain OGG stream. Unpacking strips it; packing synthesizes it, with a
//! PCM sample count obtained from a Vorbis decode of the stream.

use vstd::prelude::*;
use crate::decrypt::{spec_le_bytes32, push_le32};

verus! {

/// The four magic bytes of an OGG page.
pub open spec fn ogg_magic() -> Seq<u8> {
    seq![0x4Fu8, 0x67u8, 0x67u8, 0x53u8]
}

/// The fixed first eight bytes of the engine's audio prelude.
pub open spec fn prelude_sentinel() -> Seq<u8> {
    seq![0x40u8, 0x00u8, 0x00u8, 0x00u8, 0x62u8, 0x77u8, 0x20u8, 0x20u8]
}

/// A blob that carries the 64-byte prelude in front of an OGG stream.
pub open spec fn spec_is_valid(s: Seq<u8>) -> bool {
    s.len() >= 68 && s.subrange(64, 68) == ogg_magic()
}

/// A bare OGG stream, without the prelude.
pub open spec fn spec_is_ogg(s: Seq<u8>) -> bool {
    s.len() >= 4 && s.subrange(0, 4) == ogg_magic()
}

/// The 64-byte prelude followed by the stream: sentinel, data length,
/// PCM sample count, a constant channel/rate block, zeros, a constant
/// `3` word, zeros.
pub open spec fn spec_add_header(data: Seq<u8>, sample_count: u32) -> Seq<u8> {
    prelude_sentinel() + spec_le_bytes32(data.len() as int) + spec_le_bytes32(sample_count as int)
        + seq![0x44u8, 0xACu8, 0x00u8, 0x00u8, 0x01u8, 0x00u8, 0x00u8, 0x00u8]
        + Seq::new(24, |i: int| 0u8) + seq![0x03u8, 0x00u8, 0x00u8, 0x00u8]
        + Seq::new(12, |i: int| 0u8) + data
}

/// Whether `data` begins with the 64-byte prelude (the OGG magic is
/// expected at offset 64).
pub fn is_valid(data: &Vec<u8>) -> (r: bool)
    ensures
        r == spec_is_valid(data@),
{
    if data.len() < 68 {
        return false;
    }
    let r = data[64] == 0x4F && data[65] == 0x67 && data[66] == 0x67 && data[67] == 0x53;
    proof {
        if r {
            assert(data@.subrange(64, 68) =~= ogg_magic());
        } else {
            assert(data@.subrange(64, 68)[0] == data@[64]);
            assert(data@.subrange(64, 68)[1] == data@[65]);
            assert(data@.subrange(64, 68)[2] == data@[66]);
            assert(data@.subrange(64, 68)[3] == data@[67]);
        }
    }
    r
}

/// Whether `data` is a bare OGG stream (magic at offset 0).
pub fn is_ogg(data: &Vec<u8>) -> (r: bool)
    ensures
        r == spec_is_ogg(data@),
{
    if data.len() < 4 {
        return false;
    }
    let r = data[0] == 0x4F && data[1] == 0x67 && data[2] == 0x67 && data[3] == 0x53;
    proof {
        if r {
            assert(data@.subrange(0, 4) =~= ogg_magic());
        } else {
            assert(data@.subrange(0, 4)[0] == data@[0]);
            assert(data@.subrange(0, 4)[1] == data@[1]);
            assert(data@.subrange(0, 4)[2] == data@[2]);
            assert(data@.subrange(0, 4)[3] == data@[3]);
        }
    }
    r
}

/// Strips the 64-byte prelude, returning the bare OGG bytes.
pub fn remove_header(data: Vec<u8>) -> (r: Vec<u8>)
    requires
        spec_is_valid(data@),
    ensures
        r@ == data@.subrange(64, data@.len() as int),
{
    let n = data.len();
    let mut r: Vec<u8> = Vec::new();
    let mut i: usize = 64;
    while i < n
        invariant
            64 <= i <= n,
            n == data@.len(),
            r@ == data@.subrange(64, i as int),
        decreases n - i,
    {
        r.push(data[i]);
        i = i + 1;
        proof {
            assert(data@.subrange(64, i as int) =~= data@.subrange(64, i - 1).push(
                data@[i - 1],
            ));
        }
    }
    r
}

/// A lewton Vorbis stream reader over an in-memory cursor, held
/// opaquely while its packets are drained. (The reader's type carries
/// `Read + Seek` bounds that cannot be declared to the verifier, so the
/// whole struct is opaque.)
#[verifier::external_body]
struct OggReader {
    inner: lewton::inside_ogg::OggStreamReader<std::io::Cursor<Vec<u8>>>,
}

/// Relies on lewton's `OggStreamReader::new`: reads the three Vorbis
/// headers from the stream and fails on anything it cannot parse.
#[verifier::external_body]
fn ogg_reader_new(data: Vec<u8>) -> (r: Option<OggReader>) {
    match lewton::inside_ogg::OggStreamReader::new(std::io::Cursor::new(data)) {
        Ok(inner) => Some(OggReader { inner }),
        Err(_) => None,
    }
}

/// Relies on lewton's `read_dec_packet_itl`: decodes the next audio
/// packet to interleaved samples; `None` once the stream ends or errs.
#[verifier::external_body]
fn ogg_read_packet_len(rdr: &mut OggReader) -> (n: Option<usize>) {
    match rdr.inner.read_dec_packet_itl() {
        Ok(Some(packet)) => Some(packet.len()),
        _ => None,
    }
}

/// Sums the interleaved PCM sample counts of every packet of the given
/// OGG stream, wrapping at 32 bits; 0 when the stream cannot be opened.
/// The value depends on the Vorbis decoder, so nothing further is
/// promised of it.
pub fn calculate_sample_count(ogg_data: Vec<u8>) -> u32 {
    let mut total: u32 = 0;
    // Every audio packet occupies at least one input byte, so the input
    // length bounds how many packets a well-formed stream can yield.
    let mut fuel = ogg_data.len();
    match ogg_reader_new(ogg_data) {
        None => 0,
        Some(mut rdr) => {
            while fuel > 0
                decreases fuel,
            {
                fuel = fuel - 1;
                match ogg_read_packet_len(&mut rdr) {
                    None => {
                        break ;
                    },
                    Some(n) => {
                        total = total.wrapping_add((n as u64 % 0x1_0000_0000) as u32);
                    },
                }
            }
            total
        },
    }
}

/// Builds the 64-byte prelude for `data` around the given PCM sample
/// count and appends the stream after it.
pub fn add_header_with_count(data: Vec<u8>, sample_count: u32) -> (r: Vec<u8>)
    requires
        data@.len() <= u32::MAX,
    ensures
        r@ == spec_add_header(data@, sample_count),
{
    let len32 = data.len() as u32;
    let mut r: Vec<u8> = Vec::new();
    r.push(0x40);
    r.push(0x00);
    r.push(0x00);
    r.push(0x00);
    r.push(0x62);
    r.push(0x77);
    r.push(0x20);
    r.push(0x20);
    proof {
        assert(r@ =~= prelude_sentinel());
    }
    push_le32(&mut r, len32);
    push_le32(&mut r, sample_count);
    r.push(0x44);
    r.push(0xAC);
    r.push(0x00);
    r.push(0x00);
    r.push(0x01);
    r.push(0x00);
    r.push(0x00);
    r.push(0x00);
    proof {
        assert(r@ =~= prelude_sentinel() + spec_le_bytes32(len32 as int) + spec_le_bytes32(
            sample_count as int,
        ) + seq![0x44u8, 0xACu8, 0x00u8, 0x00u8, 0x01u8, 0x00u8, 0x00u8, 0x00u8]);
    }
    let ghost front = r@;
    let mut i: usize = 0;
    while i < 24
        invariant
            i <= 24,
            r@ == front.add(Seq::new(i as nat, |j: int| 0u8)),
        decreases 24 - i,
    {
        r.push(0x00);
        i = i + 1;
        proof {
            assert(r@ =~= front.add(Seq::new(i as nat, |j: int| 0u8)));
        }
    }
    r.push(0x03);
    r.push(0x00);
    r.push(0x00);
    r.push(0x00);
    let ghost mid = r@;
    let mut k: usize = 0;
    while k < 12
        invariant
            k <= 12,
            r@ == mid.add(Seq::new(k as nat, |j: int| 0u8)),
        decreases 12 - k,
    {
        r.push(0x00);
        k = k + 1;
        proof {
            assert(r@ =~= mid.add(Seq::new(k as nat, |j: int| 0u8)));
        }
    }
    let ghost header = r@;
    proof {
        assert(header =~= front + Seq::new(24, |j: int| 0u8) + seq![
            0x03u8,
            0x00u8,
            0x00u8,
            0x00u8,
        ] + Seq::new(12, |j: int| 0u8));
    }
    let n = data.len();
    let mut p: usize = 0;
    while p < n
        invariant
            p <= n,
            n == data@.len(),
            r@ == header.add(data@.subrange(0, p as int)),
        decreases n - p,
    {
        r.push(data[p]);
        p = p + 1;
        proof {
            assert(r@ =~= header.add(data@.subrange(0, p as int)));
        }
    }
    proof {
        assert(r@ =~= spec_add_header(data@, sample_count));
    }
    r
}

/// Synthesizes the audio prelude for a bare OGG stream: the sample
/// count field is obtained by decoding the stream.
pub fn add_header(data: Vec<u8>) -> (r: Vec<u8>)
    requires
        data@.len() <= u32::MAX,
    ensures
        exists|c: u32| r@ == spec_add_header(data@, c),
        r@.len() == 64 + data@.len(),
        r@.subrange(64, r@.len() as int) == data@,
{
    let count = calculate_sample_count(data.clone());
    let r = add_header_with_count(data, count);
    proof {
        lemma_add_header_layout(r@, count);
    }
    r
}

/// The prelude layout: the stream sits unchanged after the 64 header
/// bytes.
proof fn lemma_add_header_layout(r: Seq<u8>, c: u32)
    requires
        exists|d: Seq<u8>| r == spec_add_header(d, c),
    ensures
        forall|d: Seq<u8>| r == spec_add_header(d, c) ==> r.len() == 64 + d.len() && r.subrange(
            64,
            r.len() as int,
        ) == d,
{
    assert forall|d: Seq<u8>| r == spec_add_header(d, c) implies r.len() == 64 + d.len()
        && r.subrange(64, r.len() as int) == d by {
        assert(spec_add_header(d, c).len() == 64 + d.len());
        assert(spec_add_header(d, c).subrange(64, spec_add_header(d, c).len() as int) =~= d);
    }
}

/// Stripping the prelude recovers the stream: for any OGG bytes `x` and
/// any sample count, the synthesized blob carries the prelude's magic
/// and its tail from offset 64 is exactly `x`.
pub proof fn lemma_header_round_trip(x: Seq<u8>, c: u32)
    requires
        x.len() <= u32::MAX,
        spec_is_ogg(x),
    ensures
        spec_is_valid(spec_add_header(x, c)),
        spec_add_header(x, c).subrange(64, spec_add_header(x, c).len() as int) == x,
{
    let r = spec_add_header(x, c);
    assert(r.len() == 64 + x.len());
    assert(r.subrange(64, r.len() as int) =~= x);
    assert(r.subrange(64, 68) =~= x.subrange(0, 4));
}

} // verus!
