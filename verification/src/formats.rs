//! Content-based image classification.
//!
//! Source cache files carry no extension, so a file is classified by its
//! bytes alone: first a format is guessed from the leading magic bytes and
//! mapped to its canonical file extension, then the image is decoded to
//! learn its pixel dimensions. Both steps are done by the `image` crate;
//! what they return is a function of the bytes alone, so each result is
//! given a name that the contracts of the callers use.
use vstd::prelude::*;

verus! {

/// The canonical file extension of the format that content-based detection
/// reports for these bytes, or `None` where no format is detected. One
/// fixed extension per format: the first the `image` crate lists, `jpg` for
/// JPEG (never `jpeg`), `png` for PNG, `tiff` for TIFF.
pub uninterp spec fn guessed_ext_spec(data: Seq<u8>) -> Option<Seq<char>>;

/// The pixel width and height that a full decode of these bytes yields,
/// or `None` where the bytes do not decode as an image.
pub uninterp spec fn decoded_dims_spec(data: Seq<u8>) -> Option<(u32, u32)>;

/// Relies on `image::guess_format` — the format is guessed from the
/// leading magic bytes of the buffer alone — and on
/// `ImageFormat::extensions_str`, whose first entry is a fixed canonical
/// extension per format; so the result is a function of the bytes.
#[verifier::external_body]
pub(crate) fn guess_ext(data: &[u8]) -> (r: Option<String>)
    ensures
        (r matches Some(e) ==> guessed_ext_spec(data@) == Some(e@)),
        (r is None ==> guessed_ext_spec(data@) is None),
{
    match image::guess_format(data) {
        Ok(f) => f.extensions_str().first().map(|e| e.to_string()),
        Err(_) => None,
    }
}

/// Relies on `image::load_from_memory`: decoding is deterministic in the
/// buffer's bytes, and `DynamicImage::width`/`height` report the decoded
/// pixel dimensions.
#[verifier::external_body]
pub(crate) fn decode_dims(data: &[u8]) -> (r: Option<(u32, u32)>)
    ensures
        r == decoded_dims_spec(data@),
{
    match image::load_from_memory(data) {
        Ok(img) => Some((img.width(), img.height())),
        Err(_) => None,
    }
}

} // verus!
