//! Peer profiles: key tags, avatars and where a profile is stored.
use vstd::prelude::*;
use vstd::string::*;
use crate::codec::{base64_decode, base64_encode, hex_decode, hex_encode, spec_base64_decode, spec_base64_encode, spec_hex_decode, spec_hex_encode};
use crate::crypto::aes::to_array32;
use crate::crypto::primitives::{sha256, spec_sha256};
use crate::text::prefixed;

verus! {

#[verifier::external_type_specification]
#[verifier::external_body]
pub struct ExDynamicImage(image::DynamicImage);

/// The largest avatar side, in pixels; larger images are scaled down.
pub const MAX_AVATAR_DIM: u32 = 128;

/// What other users see of a user: the tag of their public key, their name
/// and their avatar (a PNG file in base64).
#[derive(Debug)]
pub struct PeerProfile {
    pub key_tag: String,
    pub name: String,
    pub avatar: Option<String>,
}

/// The text of an optional string.
pub open spec fn opt_view(o: Option<String>) -> Option<Seq<char>> {
    match o {
        Some(s) => Some(s@),
        None => None,
    }
}

/// A copy of an optional string.
pub fn clone_opt_string(o: &Option<String>) -> (c: Option<String>)
    ensures
        opt_view(c) == opt_view(*o),
{
    match o {
        Some(s) => Some(s.clone()),
        None => None,
    }
}

impl PeerProfile {
    /// The profile's text: key tag, name and avatar.
    pub open spec fn view_parts(self) -> (Seq<char>, Seq<char>, Option<Seq<char>>) {
        (self.key_tag@, self.name@, opt_view(self.avatar))
    }

    /// A copy with the same text.
    pub fn duplicate(&self) -> (p: PeerProfile)
        ensures
            p.view_parts() == self.view_parts(),
    {
        PeerProfile {
            key_tag: self.key_tag.clone(),
            name: self.name.clone(),
            avatar: clone_opt_string(&self.avatar),
        }
    }
}

/// The key tag of a public key: the first four bytes of its SHA-256
/// digest in hexadecimal.
pub open spec fn spec_key_tag(public_key: Seq<u8>) -> Seq<char> {
    spec_hex_encode(spec_sha256(public_key).take(4))
}

/// The key tag of a public key.
pub fn compute_key_tag(public_key_bytes: &[u8]) -> (tag: String)
    ensures
        tag@ == spec_key_tag(public_key_bytes@),
{
    let digest = sha256(public_key_bytes);
    let head: &[u8] = vstd::slice::slice_subrange(digest.as_slice(), 0, 4);
    assert(head@ == spec_sha256(public_key_bytes@).take(4));
    hex_encode(head)
}

/// `b` starts with `p`.
pub open spec fn has_prefix(b: Seq<u8>, p: Seq<u8>) -> bool {
    p.len() <= b.len() && b.take(p.len() as int) == p
}

/// The signature that starts a PNG file.
pub open spec fn png_magic() -> Seq<u8> {
    seq![0x89u8, 0x50u8, 0x4Eu8, 0x47u8]
}

/// The signature that starts a JPEG file.
pub open spec fn jpeg_magic() -> Seq<u8> {
    seq![0xFFu8, 0xD8u8, 0xFFu8]
}

/// The size of the image that `image::load_from_memory` decodes from
/// these bytes, or `None` where it refuses them.
pub uninterp spec fn spec_image_dims(raw: Seq<u8>) -> Option<(u32, u32)>;

/// The PNG file that `image::DynamicImage::write_to` writes for the image
/// decoded from `raw`, first scaled with `resize` (Lanczos3) to fit the box
/// where one is given, or `None` where writing fails.
pub uninterp spec fn spec_avatar_png(raw: Seq<u8>, fit: Option<(u32, u32)>) -> Option<Seq<u8>>;

/// A decoded image, with the bytes it was decoded from and the box it was
/// scaled to fit, if any.
struct AvatarImage {
    img: image::DynamicImage,
    raw: Ghost<Seq<u8>>,
    fit: Ghost<Option<(u32, u32)>>,
}

/// `image::load_from_memory`, which guesses the format from the bytes and
/// decodes them. It succeeds exactly where a size is named for the bytes;
/// the PNG and JPEG decoders refuse an image with a zero side.
#[verifier::external_body]
fn load_image(raw: &[u8]) -> (res: Result<AvatarImage, String>)
    ensures
        match res {
            Ok(a) => a.raw@ == raw@ && a.fit@ is None && (spec_image_dims(raw@) matches Some(d)
                && d.0 >= 1 && d.1 >= 1),
            Err(_) => spec_image_dims(raw@) is None,
        },
{
    match image::load_from_memory(raw) {
        Ok(img) => Ok(AvatarImage { img, raw: Ghost(raw@), fit: Ghost(None) }),
        Err(e) => Err(e.to_string()),
    }
}

/// `image::GenericImageView::dimensions` of an image as decoded: its width
/// and height.
#[verifier::external_body]
fn image_size(a: &AvatarImage) -> (size: (u32, u32))
    requires
        a.fit@ is None,
    ensures
        spec_image_dims(a.raw@) == Some(size),
{
    image::GenericImageView::dimensions(&a.img)
}

/// `image::DynamicImage::resize` with the Lanczos3 filter: the image scaled
/// to the largest size within the box that keeps its aspect ratio.
#[verifier::external_body]
fn resize_image(a: &AvatarImage, width: u32, height: u32) -> (scaled: AvatarImage)
    requires
        a.fit@ is None,
    ensures
        scaled.raw@ == a.raw@,
        scaled.fit@ == Some((width, height)),
{
    AvatarImage {
        img: a.img.resize(width, height, image::imageops::FilterType::Lanczos3),
        raw: Ghost(a.raw@),
        fit: Ghost(Some((width, height))),
    }
}

/// `image::DynamicImage::write_to` a buffer as PNG: the named file, or an
/// error exactly where none is named. The file records the image's size, so
/// it loads back at that size: the decoded size where nothing was scaled, at
/// least 1 and at most the box where it was (the scaled sides are rounded,
/// never above the box). Stated for sides up to 4096, well within the
/// decoder's memory limit.
#[verifier::external_body]
fn write_png(a: &AvatarImage) -> (res: Result<Vec<u8>, String>)
    ensures
        match res {
            Ok(p) => spec_avatar_png(a.raw@, a.fit@) == Some(p@),
            Err(_) => spec_avatar_png(a.raw@, a.fit@) is None,
        },
        res matches Ok(p) ==> match a.fit@ {
            None => (spec_image_dims(a.raw@) matches Some(d) && 1 <= d.0 <= 4096 && 1 <= d.1 <= 4096)
                ==> spec_image_dims(p@) == spec_image_dims(a.raw@),
            Some(b) => (1 <= b.0 <= 4096 && 1 <= b.1 <= 4096) ==> (spec_image_dims(p@) matches Some(
                d,
            ) && 1 <= d.0 <= b.0 && 1 <= d.1 <= b.1),
        },
{
    let mut buf: Vec<u8> = Vec::new();
    a.img.write_to(&mut std::io::Cursor::new(&mut buf), image::ImageFormat::Png).map_err(|e| e.to_string())?;
    Ok(buf)
}

/// The box an avatar of this size is scaled to fit, if it is too large.
pub open spec fn avatar_fit(dims: (u32, u32)) -> Option<(u32, u32)> {
    if dims.0 > MAX_AVATAR_DIM || dims.1 > MAX_AVATAR_DIM {
        Some((MAX_AVATAR_DIM, MAX_AVATAR_DIM))
    } else {
        None
    }
}

/// What validating the bytes of an image in a known format gives: an error
/// where they do not decode or the PNG cannot be written, else the PNG in
/// base64.
pub open spec fn avatar_outcome(raw: Seq<u8>, res: Result<String, String>) -> bool {
    match spec_image_dims(raw) {
        None => res matches Err(e) && prefixed(e@, "invalid image: "@),
        Some(d) => match spec_avatar_png(raw, avatar_fit(d)) {
            Some(png) => res matches Ok(s) && s@ == spec_base64_encode(png),
            None => res matches Err(e) && prefixed(e@, "failed to encode: "@),
        },
    }
}

/// The accepted avatar's PNG loads as an image of at most 128 pixels a
/// side, at the original size where that already fitted.
pub open spec fn avatar_png_fits(raw: Seq<u8>, png: Seq<u8>) -> bool {
    spec_image_dims(png) matches Some(p) && 1 <= p.0 <= MAX_AVATAR_DIM && 1 <= p.1 <= MAX_AVATAR_DIM
        && (avatar_fit(spec_image_dims(raw).unwrap()) is None ==> Some(p) == spec_image_dims(raw))
}

fn starts_with(b: &[u8], p: &[u8]) -> (r: bool)
    ensures
        r == has_prefix(b@, p@),
{
    if p.len() > b.len() {
        return false;
    }
    let mut i: usize = 0;
    while i < p.len()
        invariant
            p@.len() <= b@.len(),
            i <= p@.len(),
            forall|j: int| 0 <= j < i ==> b@[j] == p@[j],
        decreases p@.len() - i,
    {
        if b[i] != p[i] {
            assert(b@.take(p@.len() as int)[i as int] != p@[i as int]);
            return false;
        }
        i = i + 1;
    }
    assert(b@.take(p@.len() as int) =~= p@);
    true
}

/// Checks an avatar given in base64: it must decode, start like a PNG or
/// JPEG file and load as an image; one larger than 128 pixels on a side is
/// scaled down to fit. The result is the image as PNG in base64.
pub fn validate_avatar(base64_data: &str) -> (res: Result<String, String>)
    ensures
        match spec_base64_decode(base64_data@) {
            None => res matches Err(e) && prefixed(e@, "invalid base64: "@),
            Some(raw) => if !has_prefix(raw, png_magic()) && !has_prefix(raw, jpeg_magic()) {
                res matches Err(e) && e@ == "only PNG and JPEG images are allowed"@
            } else {
                &&& avatar_outcome(raw, res)
                &&& res is Ok ==> avatar_png_fits(raw, spec_avatar_png(
                    raw,
                    avatar_fit(spec_image_dims(raw).unwrap()),
                ).unwrap())
            },
        },
{
    let raw = match base64_decode(base64_data) {
        Ok(v) => v,
        Err(e) => {
            let mut m: String = "invalid base64: ".to_owned();
            m.append(e.as_str());
            assert(m@ == "invalid base64: "@ + e@);
            return Err(m);
        },
    };
    let png_sig: [u8; 4] = [0x89, 0x50, 0x4E, 0x47];
    let jpeg_sig: [u8; 3] = [0xFF, 0xD8, 0xFF];
    assert(png_sig@ == png_magic());
    assert(jpeg_sig@ == jpeg_magic());
    let is_png: bool = starts_with(raw.as_slice(), &png_sig);
    let is_jpeg: bool = starts_with(raw.as_slice(), &jpeg_sig);
    if !is_png && !is_jpeg {
        return Err("only PNG and JPEG images are allowed".to_owned());
    }
    let img = match load_image(raw.as_slice()) {
        Ok(i) => i,
        Err(e) => {
            let mut m: String = "invalid image: ".to_owned();
            m.append(e.as_str());
            assert(m@ == "invalid image: "@ + e@);
            return Err(m);
        },
    };
    let (w, h) = image_size(&img);
    let img = if w > MAX_AVATAR_DIM || h > MAX_AVATAR_DIM {
        resize_image(&img, MAX_AVATAR_DIM, MAX_AVATAR_DIM)
    } else {
        img
    };
    assert(img.fit@ == avatar_fit((w, h)));
    let buf = match write_png(&img) {
        Ok(b) => b,
        Err(e) => {
            let mut m: String = "failed to encode: ".to_owned();
            m.append(e.as_str());
            assert(m@ == "failed to encode: "@ + e@);
            return Err(m);
        },
    };
    Ok(base64_encode(buf.as_slice()))
}

/// A path with a relative name adjoined, as `Path::join` does with `/` as
/// the separator: no separator after an empty path or one that ends in `/`.
pub open spec fn spec_path_join(dir: Seq<char>, name: Seq<char>) -> Seq<char> {
    if dir.len() == 0 {
        name
    } else if dir.last() == '/' {
        dir + name
    } else {
        dir + seq!['/'] + name
    }
}

/// The directory of the stored profile inside the data directory.
pub fn profile_dir(data_dir: &str) -> (dir: String)
    ensures
        dir@ == spec_path_join(data_dir@, "bubu2bubu"@),
{
    let n: usize = data_dir.unicode_len();
    let mut dir: String = data_dir.to_owned();
    if n > 0 && data_dir.get_char(n - 1) != '/' {
        dir.append("/");
    }
    dir.append("bubu2bubu");
    proof {
        reveal_strlit("/");
    }
    dir
}

/// The secret key of a stored profile: 32 bytes in hexadecimal; anything
/// else is no key.
pub fn decode_secret_key(hex: &str) -> (key: Option<[u8; 32]>)
    ensures
        match spec_hex_decode(hex@) {
            Some(b) => if b.len() == 32 {
                key matches Some(k) && k@ == b
            } else {
                key is None
            },
            None => key is None,
        },
{
    let bytes = match hex_decode(hex) {
        Ok(b) => b,
        Err(_) => {
            return None;
        },
    };
    if bytes.len() != 32 {
        return None;
    }
    Some(to_array32(bytes.as_slice()))
}

/// The secret key as a stored profile holds it: hexadecimal.
pub fn encode_secret_key(secret: &[u8; 32]) -> (hex: String)
    ensures
        hex@ == spec_hex_encode(secret@),
{
    hex_encode(secret)
}

} // verus!
