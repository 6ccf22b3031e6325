//! Cover artwork representation inside `covr/data`.

use vstd::prelude::*;

use super::be::{push_all, push_u32, u32_bytes};
use super::box_header::{
    box_bytes, law_with_header_parses_back, lemma_box_bytes_shape, spec_parse, with_header,
    written_header_len, BoxHeader, FourCc,
};
use super::error::Mp4Error;
use super::finder::covr;

verus! {

/// Image formats that can be embedded.
#[derive(Debug, Clone, Copy, PartialEq, Eq, Structural)]
pub enum ImageKind {
    Jpeg,
    Png,
}

/// The `data` box type.
#[verifier::allow_in_spec]
pub fn data() -> FourCc
    returns
        FourCc([0x64, 0x61, 0x74, 0x61]),
{
    FourCc([0x64, 0x61, 0x74, 0x61])
}

/// The JPEG magic bytes.
pub open spec fn jpeg_magic() -> Seq<u8> {
    seq![0xFFu8, 0xD8u8, 0xFFu8]
}

/// The PNG signature.
pub open spec fn png_magic() -> Seq<u8> {
    seq![0x89u8, 0x50u8, 0x4Eu8, 0x47u8, 0x0Du8, 0x0Au8, 0x1Au8, 0x0Au8]
}

/// The format that the leading bytes of `bytes` announce.
pub open spec fn spec_sniff(bytes: Seq<u8>) -> Result<ImageKind, Mp4Error> {
    if bytes.len() >= 3 && bytes.subrange(0, 3) == jpeg_magic() {
        Ok(ImageKind::Jpeg)
    } else if bytes.len() >= 8 && bytes.subrange(0, 8) == png_magic() {
        Ok(ImageKind::Png)
    } else {
        Err(Mp4Error::UnrecognizedImage)
    }
}

impl ImageKind {
    /// The iTunes `data` box type indicator: 13 for JPEG, 14 for PNG.
    pub open spec fn code(self) -> u32 {
        match self {
            ImageKind::Jpeg => 13,
            ImageKind::Png => 14,
        }
    }

    /// Detect format from leading magic bytes.
    pub fn sniff(bytes: &[u8]) -> (r: Result<ImageKind, Mp4Error>)
        ensures
            r == spec_sniff(bytes@),
    {
        if bytes.len() >= 3 && bytes[0] == 0xFF && bytes[1] == 0xD8 && bytes[2] == 0xFF {
            assert(bytes@.subrange(0, 3) =~= jpeg_magic());
            return Ok(ImageKind::Jpeg);
        }
        assert(bytes@.len() >= 3 ==> (bytes@.subrange(0, 3) == jpeg_magic() ==> bytes@[0] == 0xFF
            && bytes@[1] == 0xD8 && bytes@[2] == 0xFF)) by {
            if bytes@.len() >= 3 && bytes@.subrange(0, 3) == jpeg_magic() {
                assert(bytes@[0] == bytes@.subrange(0, 3)[0]);
                assert(bytes@[1] == bytes@.subrange(0, 3)[1]);
                assert(bytes@[2] == bytes@.subrange(0, 3)[2]);
            }
        }
        if bytes.len() >= 8 && bytes[0] == 0x89 && bytes[1] == 0x50 && bytes[2] == 0x4E && bytes[3]
            == 0x47 && bytes[4] == 0x0D && bytes[5] == 0x0A && bytes[6] == 0x1A && bytes[7] == 0x0A {
            assert(bytes@.subrange(0, 8) =~= png_magic());
            return Ok(ImageKind::Png);
        }
        assert(bytes@.len() >= 8 ==> bytes@.subrange(0, 8) != png_magic()) by {
            if bytes@.len() >= 8 && bytes@.subrange(0, 8) == png_magic() {
                assert(bytes@[0] == bytes@.subrange(0, 8)[0]);
                assert(bytes@[1] == bytes@.subrange(0, 8)[1]);
                assert(bytes@[2] == bytes@.subrange(0, 8)[2]);
                assert(bytes@[3] == bytes@.subrange(0, 8)[3]);
                assert(bytes@[4] == bytes@.subrange(0, 8)[4]);
                assert(bytes@[5] == bytes@.subrange(0, 8)[5]);
                assert(bytes@[6] == bytes@.subrange(0, 8)[6]);
                assert(bytes@[7] == bytes@.subrange(0, 8)[7]);
            }
        }
        Err(Mp4Error::UnrecognizedImage)
    }

    /// Type indicator stored in the `data` box.
    pub fn data_type(self) -> (r: u32)
        ensures
            r == self.code(),
    {
        match self {
            ImageKind::Jpeg => 13,
            ImageKind::Png => 14,
        }
    }
}

/// Payload of the `data` box: type indicator, locale 0, image bytes.
pub open spec fn data_payload(kind: ImageKind, image: Seq<u8>) -> Seq<u8> {
    u32_bytes(kind.code() as int) + u32_bytes(0) + image
}

/// The complete `covr` box holding one image.
pub open spec fn covr_bytes(kind: ImageKind, image: Seq<u8>) -> Seq<u8> {
    box_bytes(covr(), 8, box_bytes(data(), 8, data_payload(kind, image)))
}

/// Serialize a complete `covr` box holding one image:
///
/// ```text
/// covr
/// └── data
///     ├── u32 type indicator (13 JPEG / 14 PNG)
///     ├── u32 locale (0)
///     └── image bytes
/// ```
pub fn covr_box(kind: ImageKind, image: &[u8]) -> (out: Vec<u8>)
    requires
        image@.len() + 64 <= u64::MAX,
    ensures
        out@ == covr_bytes(kind, image@),
{
    let mut payload: Vec<u8> = Vec::new();
    push_u32(&mut payload, kind.data_type());
    push_u32(&mut payload, 0);
    push_all(&mut payload, image);
    assert(payload@ =~= data_payload(kind, image@));
    let inner = with_header(data(), 8, &payload);
    proof {
        lemma_box_bytes_shape(data(), 8, payload@);
    }
    with_header(covr(), 8, &inner)
}

/// A serialized cover parses back as one `covr` box spanning all of it,
/// holding a `data` box spanning all of its payload, whose payload is the
/// type indicator, locale 0 and the image; each size is 8 plus its body.
pub proof fn law_covr_box_layout(kind: ImageKind, image: Seq<u8>)
    requires
        image.len() + 24 <= u32::MAX,
    ensures
        ({
            let b = covr_bytes(kind, image);
            &&& b.len() == image.len() + 24
            &&& spec_parse(b, 0, b.len() as int) == Ok::<_, Mp4Error>(
                Some(BoxHeader { kind: covr(), offset: 0, size: b.len() as u64, header_len: 8 }),
            )
            &&& spec_parse(b, 8, b.len() as int) == Ok::<_, Mp4Error>(
                Some(
                    BoxHeader {
                        kind: data(),
                        offset: 8,
                        size: (image.len() + 16) as u64,
                        header_len: 8,
                    },
                ),
            )
            &&& b.subrange(16, b.len() as int) == data_payload(kind, image)
        }),
{
    let payload = data_payload(kind, image);
    let inner = box_bytes(data(), 8, payload);
    lemma_box_bytes_shape(data(), 8, payload);
    lemma_box_bytes_shape(covr(), 8, inner);
    law_with_header_parses_back(covr(), 8, inner);
    let b = covr_bytes(kind, image);
    assert(written_header_len(8, inner) == 8);
    assert(b.subrange(8, b.len() as int) == inner);
    super::box_header::lemma_parse_box_bytes(b, 8, b.len() as int, data(), 8, payload);
    assert(b.subrange(16, b.len() as int) =~= inner.subrange(8, inner.len() as int));
}

/// Bytes starting `FF D8 FF` are a JPEG, whatever follows (a JFIF or an Exif
/// marker alike); bytes starting with the eight-byte PNG signature are a
/// PNG; only those two are recognised, and anything else is refused.
pub proof fn law_sniff_by_magic(bytes: Seq<u8>)
    ensures
        bytes.len() >= 3 && bytes[0] == 0xFFu8 && bytes[1] == 0xD8u8 && bytes[2] == 0xFFu8 ==> spec_sniff(
            bytes,
        ) == Ok::<ImageKind, Mp4Error>(ImageKind::Jpeg),
        bytes.len() >= 8 && bytes[0] == 0x89u8 && bytes[1] == 0x50u8 && bytes[2] == 0x4Eu8 && bytes[3]
            == 0x47u8 && bytes[4] == 0x0Du8 && bytes[5] == 0x0Au8 && bytes[6] == 0x1Au8 && bytes[7]
            == 0x0Au8 ==> spec_sniff(bytes) == Ok::<ImageKind, Mp4Error>(ImageKind::Png),
        spec_sniff(bytes) == Ok::<ImageKind, Mp4Error>(ImageKind::Jpeg) ==> bytes.len() >= 3 && bytes[0]
            == 0xFFu8 && bytes[1] == 0xD8u8 && bytes[2] == 0xFFu8,
        spec_sniff(bytes) == Ok::<ImageKind, Mp4Error>(ImageKind::Png) ==> bytes.len() >= 8 && bytes[0]
            == 0x89u8 && bytes[1] == 0x50u8 && bytes[2] == 0x4Eu8 && bytes[3] == 0x47u8,
        spec_sniff(bytes) is Err ==> spec_sniff(bytes) == Err::<ImageKind, Mp4Error>(
            Mp4Error::UnrecognizedImage,
        ),
{
    if bytes.len() >= 3 {
        let h = bytes.subrange(0, 3);
        assert(h[0] == bytes[0] && h[1] == bytes[1] && h[2] == bytes[2]);
        if bytes[0] == 0xFFu8 && bytes[1] == 0xD8u8 && bytes[2] == 0xFFu8 {
            assert(h =~= jpeg_magic());
        }
    }
    if bytes.len() >= 8 {
        let h = bytes.subrange(0, 8);
        assert(h[0] == bytes[0] && h[1] == bytes[1] && h[2] == bytes[2] && h[3] == bytes[3]);
        assert(h[4] == bytes[4] && h[5] == bytes[5] && h[6] == bytes[6] && h[7] == bytes[7]);
        if bytes[0] == 0x89u8 && bytes[1] == 0x50u8 && bytes[2] == 0x4Eu8 && bytes[3] == 0x47u8 && bytes[4]
            == 0x0Du8 && bytes[5] == 0x0Au8 && bytes[6] == 0x1Au8 && bytes[7] == 0x0Au8 {
            assert(h =~= png_magic());
        }
    }
}

} // verus!
