//! The per-blob unpack driver: an optional BSE descramble, then the
//! first matching codec — DSC, then CBG, then the OGG prelude — decides
//! the output; anything else passes through untouched.

use vstd::prelude::*;
use crate::error::ArcError;
use crate::bse;
use crate::cbg;
use crate::dsc;
use crate::ogg;

verus! {

/// What one archive blob unpacks to.
#[derive(Debug, Clone, PartialEq, Eq)]
pub enum Unpacked {
    /// An RGBA image to be written as PNG.
    Image { width: u16, height: u16, pixels: Vec<u8> },
    /// A bare OGG stream.
    Audio(Vec<u8>),
    /// Bytes written as they are.
    Raw(Vec<u8>),
}

/// A blob with its BSE layer applied: the 64 bytes after the prelude
/// descrambled, everything else untouched.
pub open spec fn bse_applied(s: Seq<u8>) -> Seq<u8> {
    s.subrange(0, 16) + bse::bse_descramble(
        crate::decrypt::spec_le32(s, 12) as u32,
        s.subrange(16, 80),
    ) + s.subrange(80, s.len() as int)
}

/// The payload handed to the codec detectors: the descrambled bytes
/// after the BSE prelude when the blob carries one (`None` when its
/// checksums fail), the blob itself otherwise.
pub open spec fn spec_payload(s: Seq<u8>) -> Option<Seq<u8>> {
    if s.len() >= 80 && s.subrange(0, 7) == bse::bse_magic() {
        if bse::spec_checksum_ok(bse_applied(s)) {
            Some(bse_applied(s).subrange(16, s.len() as int))
        } else {
            None
        }
    } else {
        Some(s)
    }
}

/// A blob cannot announce both the DSC and the CBG codec.
pub proof fn lemma_dsc_cbg_exclusive(s: Seq<u8>, size: u32)
    ensures
        !(dsc::spec_is_valid(s, size) && cbg::spec_is_valid(s, size)),
{
    if dsc::spec_is_valid(s, size) && cbg::spec_is_valid(s, size) {
        assert(s.subrange(0, 15)[0] == dsc::dsc_magic()[0]);
        assert(s.subrange(0, 15)[0] == cbg::cbg_magic()[0]);
    }
}

/// Unpacks one blob: BSE is stripped first when present; then the
/// detectors run in order — DSC, CBG, OGG — and the first match decides
/// the output; a blob matching none passes through unchanged. A DSC
/// result with a plausible bitmap prelude becomes an image.
#[verifier::rlimit(100)]
pub fn unpack_file(data: Vec<u8>, filesize: u32) -> (r: Result<Unpacked, ArcError>)
    requires
        data@.len() == filesize,
    ensures
        ({
            let p_opt = spec_payload(data@);
            match p_opt {
                None => r == Err::<Unpacked, ArcError>(ArcError::BseDecryptError),
                Some(p) => {
                    let psize = p.len() as u32;
                    if dsc::spec_is_valid(p, psize) {
                        match dsc::spec_dsc_decrypt(p) {
                            None => if p.len() < 544 {
                                r == Err::<Unpacked, ArcError>(ArcError::InvalidFormat)
                            } else {
                                r == Err::<Unpacked, ArcError>(ArcError::DscDecryptError)
                            },
                            Some(d) => if dsc::spec_renderable(d) {
                                r matches Ok(u) && u matches Unpacked::Image {
                                    width,
                                    height,
                                    pixels,
                                } && width == crate::decrypt::spec_le16(d, 0) && height
                                    == crate::decrypt::spec_le16(d, 2) && pixels@
                                    == dsc::spec_render_image(d)
                            } else {
                                r matches Ok(u) && u matches Unpacked::Raw(b) && b@ == d
                            },
                        }
                    } else if cbg::spec_is_valid(p, psize) {
                        match cbg::spec_cbg_decrypt(p) {
                            None => if p.len() < 48 {
                                r == Err::<Unpacked, ArcError>(ArcError::InvalidFormat)
                            } else {
                                r == Err::<Unpacked, ArcError>(ArcError::CbgDecryptError)
                            },
                            Some(t) => r matches Ok(u) && u matches Unpacked::Image {
                                width,
                                height,
                                pixels,
                            } && pixels@ == t.0 && width == t.1 && height == t.2,
                        }
                    } else if ogg::spec_is_valid(p) {
                        r matches Ok(u) && u matches Unpacked::Audio(b) && b@ == p.subrange(
                            64,
                            p.len() as int,
                        )
                    } else {
                        r matches Ok(u) && u matches Unpacked::Raw(b) && b@ == p
                    }
                },
            }
        }),
{
    let mut payload = data;
    let ghost orig = payload@;
    if bse::is_valid(&payload, filesize) {
        match bse::decrypt(&mut payload) {
            Ok(()) => {
                proof {
                    assert(payload@ =~= bse_applied(orig));
                }
            },
            Err(e) => {
                proof {
                    assert(payload@ =~= bse_applied(orig));
                }
                return Err(e);
            },
        }
        let stripped = crate::decrypt::drop_prefix(payload, 16);
        payload = stripped;
        proof {
            assert(payload@ =~= bse_applied(orig).subrange(16, orig.len() as int));
        }
    }
    let psize = payload.len() as u32;
    proof {
        assert(spec_payload(data@) == Some(payload@));
    }
    if dsc::is_valid(&payload, psize) {
        let (dec, _size) = match dsc::decrypt(&payload, psize) {
            Ok(t) => t,
            Err(e) => {
                return Err(e);
            },
        };
        if dsc::dsc_is_image(&dec) {
            match dsc::render_image(&dec) {
                Ok((pixels, width, height)) => Ok(Unpacked::Image { width, height, pixels }),
                Err(_) => Ok(Unpacked::Raw(dec)),
            }
        } else {
            Ok(Unpacked::Raw(dec))
        }
    } else if cbg::is_valid(&payload, psize) {
        let (pixels, width, height) = match cbg::decrypt(&payload) {
            Ok(t) => t,
            Err(e) => {
                return Err(e);
            },
        };
        Ok(Unpacked::Image { width, height, pixels })
    } else if ogg::is_valid(&payload) {
        Ok(Unpacked::Audio(ogg::remove_header(payload)))
    } else {
        Ok(Unpacked::Raw(payload))
    }
}

} // verus!
