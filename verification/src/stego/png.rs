//! PNG encoding and decoding of 8-bit RGB pixel buffers.
use vstd::prelude::*;

verus! {

/// The PNG file that the `image` crate writes for an RGB image of the given
/// size whose samples start `pixels`; `None` when it refuses the image.
pub uninterp spec fn spec_png_encode(pixels: Seq<u8>, width: nat, height: nat) -> Option<Seq<u8>>;

/// The 8-bit RGB samples of a PNG file as the `image` crate decodes it;
/// `None` when it cannot decode the file.
pub uninterp spec fn spec_png_decode(png: Seq<u8>) -> Option<Seq<u8>>;

/// `image::ImageBuffer::<Rgb<u8>, Vec<u8>>::from_raw` followed by
/// `write_to(.., ImageFormat::Png)` into memory. The buffer is refused when
/// it holds fewer than `3 * width * height` samples.
#[verifier::external_body]
pub(crate) fn encode_png(pixels: &[u8], width: usize, height: usize) -> (res: Result<Vec<u8>, String>)
    requires
        width <= u32::MAX,
        height <= u32::MAX,
    ensures
        match res {
            Ok(png) => spec_png_encode(pixels@, width as nat, height as nat) == Some(png@),
            Err(_) => spec_png_encode(pixels@, width as nat, height as nat) is None,
        },
        pixels@.len() < 3 * width * height ==> res is Err,
{
    let img = image::ImageBuffer::<image::Rgb<u8>, Vec<u8>>::from_raw(
        width as u32,
        height as u32,
        pixels.to_vec(),
    ).ok_or("failed to create image buffer")?;
    let mut buf: Vec<u8> = Vec::new();
    img.write_to(&mut std::io::Cursor::new(&mut buf), image::ImageFormat::Png).map_err(
        |e| format!("png encode failed: {}", e),
    )?;
    Ok(buf)
}

/// `image::ImageReader::with_format(.., ImageFormat::Png).decode()` followed
/// by `to_rgb8().into_raw()`. PNG is lossless: a file that `encode_png` wrote
/// for a buffer of exactly `3 * width * height` samples (at most 4096 pixels
/// on a side, well inside the reader's default memory limit) decodes to that
/// buffer.
#[verifier::external_body]
pub(crate) fn decode_png(png: &[u8]) -> (res: Result<Vec<u8>, String>)
    ensures
        match res {
            Ok(pixels) => spec_png_decode(png@) == Some(pixels@) && forall|q: Seq<u8>, w: nat, h: nat|
                q.len() == 3 * w * h && w <= 4096 && h <= 4096 && #[trigger] spec_png_encode(q, w, h)
                    == Some(png@) ==> pixels@ == q,
            Err(_) => spec_png_decode(png@) is None && forall|q: Seq<u8>, w: nat, h: nat|
                q.len() == 3 * w * h && w <= 4096 && h <= 4096 ==> #[trigger] spec_png_encode(q, w, h)
                    != Some(png@),
        },
{
    let reader = image::ImageReader::with_format(std::io::Cursor::new(png), image::ImageFormat::Png);
    let img = reader.decode().map_err(|e| e.to_string())?;
    Ok(img.to_rgb8().into_raw())
}

} // verus!
