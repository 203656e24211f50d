//! The payload scanner: reads the decoded bytes as one embedded JPEG image.

use vstd::prelude::*;

verus! {

/// An image recovered from the decoded bytes, as 8-bit RGB pixels in rows.
pub struct Payload {
    pub width: u32,
    pub height: u32,
    pub pixels: Vec<u8>,
}

/// What the JPEG decoder makes of `bytes`: the width, height and RGB pixels
/// of the image, or the text of its error.
pub uninterp spec fn jpeg_decoding(bytes: Seq<u8>) -> Result<(u32, u32, Seq<u8>), Seq<char>>;

/// Relies on `image::load_from_memory_with_format` with `ImageFormat::Jpeg`,
/// and on `DynamicImage::width`, `height` and `to_rgb8` for its result: what
/// comes back depends on the bytes alone.
#[verifier::external_body]
fn decode_jpeg(bytes: &[u8]) -> (r: Result<Payload, String>)
    ensures
        match r {
            Ok(p) => jpeg_decoding(bytes@) == Ok::<(u32, u32, Seq<u8>), Seq<char>>(
                (p.width, p.height, p.pixels@),
            ),
            Err(m) => jpeg_decoding(bytes@) == Err::<(u32, u32, Seq<u8>), Seq<char>>(m@),
        },
{
    match image::load_from_memory_with_format(bytes, image::ImageFormat::Jpeg) {
        Ok(img) => Ok(Payload { width: img.width(), height: img.height(), pixels: img.to_rgb8().into_raw() }),
        Err(e) => Err(e.to_string()),
    }
}

/// The outcome of one scan: the payloads recovered, and the reason for a
/// failure.
pub struct ScanOutcome {
    pub payloads: Vec<Payload>,
    pub failure: Option<String>,
}

/// Turns the decoder's answer into the scan's outcome: one payload on
/// success, none and the error text on failure.
pub fn scan_outcome(decoded: Result<Payload, String>) -> (r: ScanOutcome)
    ensures
        match decoded {
            Ok(p) => r.payloads@.len() == 1 && r.payloads@[0] == p && r.failure is None,
            Err(m) => r.payloads@.len() == 0 && r.failure == Some(m),
        },
{
    match decoded {
        Ok(p) => {
            let mut payloads: Vec<Payload> = Vec::new();
            payloads.push(p);
            ScanOutcome { payloads, failure: None }
        },
        Err(m) => ScanOutcome { payloads: Vec::new(), failure: Some(m) },
    }
}

/// Scans the decoded bytes for one JPEG image spanning the whole buffer.
pub fn scan_payload(bytes: &[u8]) -> (r: ScanOutcome)
    ensures
        match jpeg_decoding(bytes@) {
            Ok((w, h, px)) => r.payloads@.len() == 1 && r.payloads@[0].width == w
                && r.payloads@[0].height == h && r.payloads@[0].pixels@ == px && r.failure is None,
            Err(m) => r.payloads@.len() == 0 && r.failure is Some && r.failure->0@ == m,
        },
{
    scan_outcome(decode_jpeg(bytes))
}

} // verus!
