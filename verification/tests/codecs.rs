use buriko_arc::arc::{pack_archive, write_filename, Arc};
use buriko_arc::bse;
use buriko_arc::cbg;
use buriko_arc::decrypt::{hash_update, my_hiword, my_loword, read16, read32, read8};
use buriko_arc::dsc;
use buriko_arc::error::ArcError;
use buriko_arc::ogg;
use buriko_arc::pipeline::{unpack_file, Unpacked};

fn keystream_bytes(seed: u32, n: usize) -> Vec<u8> {
    let mut h = seed;
    let mut out = Vec::new();
    for _ in 0..n {
        out.push((hash_update(&mut h) % 0x100) as u8);
    }
    out
}

#[test]
fn test_readers() {
    let data = vec![0x01, 0x02, 0x03, 0x04, 0x05, 0x06, 0x07];
    let mut pos = 0usize;
    assert_eq!(read32(&data, &mut pos), 0x04030201);
    assert_eq!(pos, 4);
    assert_eq!(read16(&data, &mut pos), 0x0605);
    assert_eq!(pos, 6);
    assert_eq!(read8(&data, &mut pos), 0x07);
    assert_eq!(pos, 7);
    assert_eq!(my_hiword(0xDEAD_BEEF), 0xDEAD);
    assert_eq!(my_loword(0xDEAD_BEEF), 0xBEEF);
}

#[test]
fn test_hash_update_values() {
    let mut h = 0u32;
    assert_eq!(hash_update(&mut h), 0);
    assert_eq!(h, 1);
    assert_eq!(hash_update(&mut h), 346);
    assert_eq!(h, 346 * 0x1_0000 + 20021 + 1);
}

#[test]
fn test_keystream_sub() {
    // subtracting the keystream undoes an addition of it
    let plain = vec![10u8, 200, 30, 40];
    let ks = keystream_bytes(42, 4);
    let mut enc = Vec::new();
    for i in 0..4 {
        enc.push(plain[i].wrapping_add(ks[i]));
    }
    assert_eq!(buriko_arc::decrypt::keystream_sub(&enc, 0, 4, 42), plain);
}

#[test]
fn test_hash_update_deterministic() {
    // the same seed yields the same stream of draws and states
    let mut a = 0xCAFE_F00Du32;
    let mut b = 0xCAFE_F00Du32;
    for _ in 0..100 {
        assert_eq!(hash_update(&mut a), hash_update(&mut b));
        assert_eq!(a, b);
    }
}

#[test]
fn test_varint_round_trip() {
    for &n in &[0u32, 1, 127, 128, 129, 300, 16383, 16384, 0x7FFF_FFFF, u32::MAX] {
        let enc = cbg::encode_variable(n);
        let mut pos = 0usize;
        assert_eq!(cbg::read_variable(&enc, &mut pos), Ok(n));
        assert_eq!(pos, enc.len());
    }
}

#[test]
fn test_varint_overlong_rejected() {
    // five continuation bytes in a row signal a format error
    let data = vec![0x80, 0x80, 0x80, 0x80, 0x80, 0x00];
    let mut pos = 0usize;
    assert_eq!(cbg::read_variable(&data, &mut pos), Err(ArcError::InvalidFormat));
    // end of input inside a number is rejected too
    let data = vec![0x80];
    let mut pos = 0usize;
    assert_eq!(cbg::read_variable(&data, &mut pos), Err(ArcError::InvalidFormat));
}

#[test]
fn test_headers() {
    // a stream the Vorbis decoder cannot open gets sample count 0
    let mut inner = b"OggS".to_vec();
    for i in 0..96u8 {
        inner.push(i);
    }
    let with_header = ogg::add_header(inner.clone());
    assert_eq!(with_header.len(), 64 + inner.len());
    assert_eq!(&with_header[8..16], &[100, 0x00, 0x00, 0x00, 0x00, 0x00, 0x00, 0x00]);
    let without_header = ogg::remove_header(with_header);
    assert_eq!(inner, without_header);
}

#[test]
fn test_ogg_prelude_layout() {
    // the exact 64-byte prelude for a 0x1707-byte stream
    let mut inner = b"OggS".to_vec();
    for i in 0..(0x1707 - 4) {
        inner.push((i % 251) as u8);
    }
    let blob = ogg::add_header_with_count(inner.clone(), 0x7640);
    let mut expected = vec![
        0x40, 0x00, 0x00, 0x00, 0x62, 0x77, 0x20, 0x20, 0x07, 0x17, 0x00, 0x00, 0x40, 0x76,
        0x00, 0x00, 0x44, 0xAC, 0x00, 0x00, 0x01, 0x00, 0x00, 0x00,
    ];
    expected.extend(vec![0u8; 24]);
    expected.extend(vec![0x03, 0x00, 0x00, 0x00]);
    expected.extend(vec![0u8; 12]);
    assert_eq!(&blob[..64], &expected[..]);
    assert!(ogg::is_valid(&blob));
    assert_eq!(ogg::remove_header(blob), inner);
}

#[test]
fn test_ogg_magic_checks() {
    assert!(ogg::is_ogg(&b"OggS....".to_vec()));
    assert!(!ogg::is_ogg(&b"Ogg".to_vec()));
    assert!(!ogg::is_valid(&b"OggS".to_vec()));
}

fn bse_rot_left(b: u32, s: u32) -> u32 {
    if s == 0 {
        b
    } else {
        ((b << s) | (b >> (8 - s))) & 0xFF
    }
}

fn bse_rot_right(b: u32, s: u32) -> u32 {
    if s == 0 {
        b
    } else {
        ((b >> s) | (b << (8 - s))) & 0xFF
    }
}

/// Builds a BSE blob whose descrambled payload is `target` (64 bytes),
/// by replaying the generator and inverting each step.
fn build_bse_blob(seed: u32, target: &[u8; 64], sum_check: u8, xor_check: u8) -> Vec<u8> {
    let mut scrambled = [0u8; 64];
    let mut visited = [false; 64];
    let mut state = seed;
    for _ in 0..64 {
        let r1 = bse::bse_rand(&mut state);
        let mut i = (r1 % 64) as usize;
        while visited[i] {
            i = (i + 1) % 64;
        }
        let r2 = bse::bse_rand(&mut state);
        let shift = r2 % 8;
        let k = bse::bse_rand(&mut state);
        let r4 = bse::bse_rand(&mut state);
        // decrypt does: rotate((scrambled - r4) mod 256) == target
        let pre_rot = if k % 2 == 1 {
            bse_rot_right(target[i] as u32, shift)
        } else {
            bse_rot_left(target[i] as u32, shift)
        };
        scrambled[i] = ((pre_rot + r4 % 256) % 256) as u8;
        visited[i] = true;
    }
    let mut blob = b"BSE 1.0\0".to_vec();
    blob.push(0x00);
    blob.push(0x01);
    blob.push(sum_check);
    blob.push(xor_check);
    blob.extend(seed.to_le_bytes());
    blob.extend(scrambled);
    blob
}

#[test]
fn test_bse_descramble() {
    // descrambled payload 0..63: sum 2016 % 256 == 0xE0, xor == 0
    let mut target = [0u8; 64];
    for i in 0..64 {
        target[i] = i as u8;
    }
    let blob = build_bse_blob(12345, &target, 0xE0, 0x00);
    assert!(bse::is_valid(&blob, blob.len() as u32));
    let mut data = blob.clone();
    assert_eq!(bse::decrypt(&mut data), Ok(()));
    assert_eq!(&data[16..80], &target[..]);
    // any single corrupted payload byte makes the checksums fail
    for pos in 16..80 {
        let mut corrupt = blob.clone();
        corrupt[pos] = corrupt[pos].wrapping_add(1);
        assert_eq!(bse::decrypt(&mut corrupt), Err(ArcError::BseDecryptError));
    }
}

/// Builds a DSC blob from a code-length table, a payload bit stream and
/// a declared decoded size.
fn build_dsc_blob(seed: u32, lengths: &[u8; 512], payload: &[u8], size: u32) -> Vec<u8> {
    let mut blob = b"DSC FORMAT 1.00".to_vec();
    blob.push(0);
    blob.extend(seed.to_le_bytes());
    blob.extend(size.to_le_bytes());
    blob.extend([0u8; 8]);
    let ks = keystream_bytes(seed, 512);
    for n in 0..512 {
        blob.push(lengths[n].wrapping_add(ks[n]));
    }
    blob.extend(payload);
    blob
}

#[test]
fn test_dsc_single_literal() {
    // a single length-1 code for the byte 'A'; ten zero bits emit ten copies
    let mut lengths = [0u8; 512];
    lengths[0x41] = 1;
    let blob = build_dsc_blob(7, &lengths, &[0x00, 0x00, 0x00], 10);
    assert!(dsc::is_valid(&blob, blob.len() as u32));
    let (data, size) = dsc::decrypt(&blob, blob.len() as u32).unwrap();
    assert_eq!(size, 10);
    assert_eq!(data, vec![0x41; 10]);
}

#[test]
fn test_dsc_back_reference() {
    // two length-1 codes: 'A' and a match token of count 2; the stream
    // emits A A then copies both from two bytes back
    let mut lengths = [0u8; 512];
    lengths[0x41] = 1;
    lengths[0x100] = 1;
    // bits: 0 0 1 then the 12-bit descriptor 0 (offset 2)
    let blob = build_dsc_blob(3, &lengths, &[0b0010_0000, 0x00], 4);
    let (data, size) = dsc::decrypt(&blob, blob.len() as u32).unwrap();
    assert_eq!(size, 4);
    assert_eq!(data, vec![0x41, 0x41, 0x41, 0x41]);
}

#[test]
fn test_dsc_short_blob_rejected() {
    let mut blob = b"DSC FORMAT 1.00".to_vec();
    blob.extend(vec![0u8; 85]);
    assert!(dsc::is_valid(&blob, blob.len() as u32));
    assert_eq!(dsc::decrypt(&blob, blob.len() as u32), Err(ArcError::InvalidFormat));
}

#[test]
fn test_dsc_bitmap_render() {
    // a decoded 2x1 24-bit bitmap: BGR bytes become RGBA rows
    let mut data = vec![2, 0, 1, 0, 24];
    data.extend(vec![0u8; 11]);
    data.extend(vec![10, 20, 30, 40, 50, 60]);
    assert!(dsc::dsc_is_image(&data));
    let (px, w, h) = dsc::render_image(&data).unwrap();
    assert_eq!((w, h), (2, 1));
    assert_eq!(px, vec![30, 20, 10, 255, 60, 50, 40, 255]);
    let mut bad = data.clone();
    bad[4] = 13;
    assert!(!dsc::dsc_is_image(&bad));
}

/// Builds a CBG blob for a 2x2 24-bit image whose zero-run stream emits
/// twelve zero bytes.
fn build_cbg_blob(key: u32) -> Vec<u8> {
    // weight table: symbol 0 and symbol 12 each weigh 1
    let mut table = [0u32; 256];
    table[0] = 1;
    table[12] = 1;
    let mut data0 = Vec::new();
    for n in 0..256 {
        data0.push(table[n] as u8);
    }
    let sum = data0.iter().fold(0u8, |a, &b| a.wrapping_add(b));
    let xor = data0.iter().fold(0u8, |a, &b| a ^ b);
    let ks = keystream_bytes(key, 256);
    let mut blob = b"CompressedBG___".to_vec();
    blob.push(0);
    blob.extend(2u16.to_le_bytes()); // width
    blob.extend(2u16.to_le_bytes()); // height
    blob.extend(24u32.to_le_bytes()); // bpp
    blob.extend([0u8; 8]);
    blob.extend(2u32.to_le_bytes()); // intermediate length
    blob.extend(key.to_le_bytes());
    blob.extend(256u32.to_le_bytes()); // encrypted length
    blob.push(sum);
    blob.push(xor);
    blob.extend([0u8; 2]);
    for n in 0..256 {
        blob.push(data0[n].wrapping_add(ks[n]));
    }
    // intermediate symbols 0 then 12: bits 0, 1
    blob.push(0b0100_0000);
    blob
}

#[test]
fn test_cbg_zero_image() {
    // the zero-run stream yields an all-zero 2x2 raw buffer, unchanged
    // by the predictor, emitted as opaque black RGBA
    let blob = build_cbg_blob(99);
    assert!(cbg::is_valid(&blob, blob.len() as u32));
    let (px, w, h) = cbg::decrypt(&blob).unwrap();
    assert_eq!((w, h), (2, 2));
    let mut expected = Vec::new();
    for _ in 0..4 {
        expected.extend(vec![0, 0, 0, 255]);
    }
    assert_eq!(px, expected);
}

#[test]
fn test_cbg_checksum_rejected() {
    let mut blob = build_cbg_blob(99);
    blob[48] = blob[48].wrapping_add(1);
    assert_eq!(cbg::decrypt(&blob), Err(ArcError::CbgDecryptError));
}

#[test]
fn test_cbg_root_weight() {
    // the pairing tree's root weighs the sum of all weights
    let mut table = vec![0u32; 256];
    table[0] = 1;
    table[12] = 1;
    table[200] = 5;
    let (nodes, root) = cbg::method2(&table).unwrap();
    assert_eq!(nodes[root as usize].weight, 7);
    assert!(nodes[root as usize].is_parent);
}

#[test]
fn test_pack_round_trip() {
    // S1, with a synthesized stream: one entry named `sample`, its
    // payload an OGG stream behind the engine prelude
    let mut inner = b"OggS".to_vec();
    for i in 0..(5952 - 4) {
        inner.push((i % 17) as u8);
    }
    let payload = ogg::add_header(inner.clone());
    let files = vec![(b"sample".to_vec(), payload.clone())];
    let image = pack_archive(&files, 2);
    assert_eq!(&image[0..12], b"BURIKO ARC20");
    assert_eq!(&image[12..16], &[0x01, 0x00, 0x00, 0x00]);
    let arc = Arc::open(image).unwrap();
    assert_eq!(arc.files_count(), 1);
    assert_eq!(arc.get_file_name(0), b"sample".to_vec());
    assert_eq!(arc.get_file_size(0), 64 + 5952);
    assert_eq!(arc.get_file_data(0).unwrap(), payload);
}

#[test]
fn test_pack_round_trip_v1_scrubbed() {
    // two entries at version 1; an unprintable name byte reads back as
    // an underscore and a long name is truncated to 16 bytes
    let files = vec![
        (vec![b'a', 0x07, b'c'], vec![1, 2, 3]),
        (b"a_very_long_name_indeed".to_vec(), vec![9, 9]),
    ];
    let image = pack_archive(&files, 1);
    assert_eq!(&image[0..12], b"PackFile    ");
    let arc = Arc::open(image).unwrap();
    assert_eq!(arc.files_count(), 2);
    assert_eq!(arc.get_file_name(0), b"a_c".to_vec());
    assert_eq!(arc.get_file_name(1), b"a_very_long_name".to_vec());
    assert_eq!(arc.get_file_size(0), 3);
    assert_eq!(arc.get_file_data(0).unwrap(), vec![1, 2, 3]);
    assert_eq!(arc.get_file_data(1).unwrap(), vec![9, 9]);
    // past the end
    assert_eq!(arc.get_file_size(2), 0);
    assert_eq!(arc.get_file_name(2), Vec::<u8>::new());
    assert!(arc.get_file_data(2).is_none());
}

#[test]
fn test_write_filename_pads() {
    assert_eq!(write_filename(&b"ab".to_vec()), {
        let mut v = vec![b'a', b'b'];
        v.extend(vec![0u8; 14]);
        v
    });
}

#[test]
fn test_arc_open_rejects_garbage() {
    assert!(Arc::open(b"NOT AN ARCHIVE!!".to_vec()).is_none());
    assert!(Arc::open(b"short".to_vec()).is_none());
    // a count too large for the bytes
    let mut image = b"PackFile    ".to_vec();
    image.extend(100u32.to_le_bytes());
    assert!(Arc::open(image).is_none());
}

#[test]
fn test_unpack_detects_dsc_first() {
    // a DSC blob decodes as DSC: plain bytes, not an image
    let mut lengths = [0u8; 512];
    lengths[0x41] = 1;
    let blob = build_dsc_blob(7, &lengths, &[0x00, 0x00, 0x00], 10);
    let out = unpack_file(blob.clone(), blob.len() as u32).unwrap();
    assert_eq!(out, Unpacked::Raw(vec![0x41; 10]));
}

#[test]
fn test_unpack_ogg_and_raw() {
    let mut inner = b"OggS".to_vec();
    inner.extend(vec![7u8; 50]);
    let with_header = ogg::add_header(inner.clone());
    let out = unpack_file(with_header.clone(), with_header.len() as u32).unwrap();
    assert_eq!(out, Unpacked::Audio(inner));

    let blob = vec![0xAAu8; 33];
    let out = unpack_file(blob.clone(), 33).unwrap();
    assert_eq!(out, Unpacked::Raw(blob));
}

#[test]
fn test_unpack_bse_layer() {
    // a BSE blob whose payload matches no codec passes through
    // descrambled, without the 16-byte prelude
    let mut target = [0u8; 64];
    for i in 0..64 {
        target[i] = i as u8;
    }
    let blob = build_bse_blob(555, &target, 0xE0, 0x00);
    let out = unpack_file(blob.clone(), blob.len() as u32).unwrap();
    assert_eq!(out, Unpacked::Raw(target.to_vec()));
    // a corrupted BSE blob aborts the entry
    let mut corrupt = blob.clone();
    corrupt[20] = corrupt[20].wrapping_add(1);
    let len = corrupt.len() as u32;
    assert_eq!(unpack_file(corrupt, len), Err(ArcError::BseDecryptError));
}

#[test]
fn test_unpack_short_dsc_is_invalid_format() {
    let mut blob = b"DSC FORMAT 1.00".to_vec();
    blob.extend(vec![0u8; 85]);
    let len = blob.len() as u32;
    assert_eq!(unpack_file(blob, len), Err(ArcError::InvalidFormat));
}

#[test]
fn test_cbg_16bpp_expansion() {
    // one BGR565 pixel 0xF800: a full blue component, bit-replicated to
    // 255, with red and green zero
    let mut table = [0u32; 256];
    table[0] = 1;
    table[2] = 1;
    table[0xF8] = 1;
    let key = 5u32;
    let mut data0 = Vec::new();
    for n in 0..256 {
        data0.push(table[n] as u8);
    }
    let sum = data0.iter().fold(0u8, |a, &b| a.wrapping_add(b));
    let xor = data0.iter().fold(0u8, |a, &b| a ^ b);
    let ks = keystream_bytes(key, 256);
    let mut blob = b"CompressedBG___".to_vec();
    blob.push(0);
    blob.extend(1u16.to_le_bytes());
    blob.extend(1u16.to_le_bytes());
    blob.extend(16u32.to_le_bytes());
    blob.extend([0u8; 8]);
    blob.extend(3u32.to_le_bytes()); // three intermediate symbols
    blob.extend(key.to_le_bytes());
    blob.extend(256u32.to_le_bytes());
    blob.push(sum);
    blob.push(xor);
    blob.extend([0u8; 2]);
    for n in 0..256 {
        blob.push(data0[n].wrapping_add(ks[n]));
    }
    // pairing: 0 and 2 join first, then 0xF8 joins their parent, so the
    // codes are 0xF8 = 0, 0 = 10, 2 = 11; the intermediate bytes
    // [2, 0, 0xF8] are the bits 11 10 0
    blob.push(0b1110_0000);
    let (px, w, h) = cbg::decrypt(&blob).unwrap();
    assert_eq!((w, h), (1, 1));
    assert_eq!(px, vec![0, 0, 255, 255]);
}

#[test]
fn test_calculate_sample_count_bad_stream() {
    // a stream the Vorbis decoder cannot open contributes zero samples
    assert_eq!(ogg::calculate_sample_count(vec![1, 2, 3, 4]), 0);
}
