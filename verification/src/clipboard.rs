//! The clipboard surface: the core decodes an asset into the raw pixel
//! buffer (width, height, RGBA bytes) that a clipboard writer needs, picks
//! the platform type tag from the file extension, and renders the
//! uncompressed TIFF fallback that animated GIF sources carry alongside
//! their original bytes. Encoding into the OS clipboard itself is a collaborator's
//! job, outside this core.

use vstd::prelude::*;
use vstd::bytes::{spec_u32_to_le_bytes, u32_to_le_bytes};
use crate::error::MediaError;
use crate::paths::{spec_extension, extension_or_png};
use crate::text::{eq_nocase, str_eq_nocase};
use crate::thumbs::decoded_dims;

verus! {

fn push2(v: &mut Vec<u8>, a: u8, b: u8)
    ensures
        final(v)@ == old(v)@ + seq![a, b],
{
    v.push(a);
    v.push(b);
    proof {
        assert(old(v)@.push(a).push(b) =~= old(v)@ + seq![a, b]);
    }
}

fn push4(v: &mut Vec<u8>, a: u8, b: u8, c: u8, d: u8)
    ensures
        final(v)@ == old(v)@ + seq![a, b, c, d],
{
    v.push(a);
    v.push(b);
    v.push(c);
    v.push(d);
    proof {
        assert(old(v)@.push(a).push(b).push(c).push(d) =~= old(v)@ + seq![a, b, c, d]);
    }
}

fn push_le32(v: &mut Vec<u8>, x: u32)
    ensures
        final(v)@ == old(v)@ + spec_u32_to_le_bytes(x),
{
    let s = u32_to_le_bytes(x);
    v.push(s[0]);
    v.push(s[1]);
    v.push(s[2]);
    v.push(s[3]);
    proof {
        assert(old(v)@.push(s@[0]).push(s@[1]).push(s@[2]).push(s@[3]) =~= old(v)@
            + spec_u32_to_le_bytes(x));
    }
}

fn push_slice(v: &mut Vec<u8>, s: &[u8])
    ensures
        final(v)@ == old(v)@ + s@,
{
    let mut i: usize = 0;
    proof {
        assert(old(v)@ + s@.subrange(0, 0) =~= old(v)@);
    }
    while i < s.len()
        invariant
            i <= s@.len(),
            v@ == old(v)@ + s@.subrange(0, i as int),
        decreases s@.len() - i,
    {
        v.push(s[i]);
        proof {
            assert((old(v)@ + s@.subrange(0, i as int)).push(s@[i as int]) =~= old(v)@
                + s@.subrange(0, i + 1));
        }
        i += 1;
    }
    proof {
        assert(s@.subrange(0, s@.len() as int) =~= s@);
    }
}

/// An uncompressed RGBA TIFF: the little-endian header, eleven directory
/// tags (with a declared pixel-data offset of 146), and the pixel bytes.
pub open spec fn spec_tiff(width: u32, height: u32, rgba: Seq<u8>) -> Seq<u8> {
    seq![0x49u8, 0x49, 0x2A, 0x00] + seq![0x08u8, 0x00, 0x00, 0x00] + seq![0x0Bu8, 0x00]
        + seq![0x00u8, 0x01, 0x04, 0x00] + seq![0x01u8, 0x00, 0x00, 0x00]
        + spec_u32_to_le_bytes(width) + seq![0x01u8, 0x01, 0x04, 0x00] + seq![
        0x01u8,
        0x00,
        0x00,
        0x00,
    ] + spec_u32_to_le_bytes(height) + seq![0x02u8, 0x01, 0x03, 0x00] + seq![
        0x04u8,
        0x00,
        0x00,
        0x00,
    ] + seq![0x08u8, 0x00, 0x08, 0x00] + seq![0x08u8, 0x00, 0x08, 0x00] + seq![
        0x03u8,
        0x01,
        0x03,
        0x00,
    ] + seq![0x01u8, 0x00, 0x00, 0x00] + seq![0x01u8, 0x00, 0x00, 0x00] + seq![
        0x06u8,
        0x01,
        0x03,
        0x00,
    ] + seq![0x01u8, 0x00, 0x00, 0x00] + seq![0x02u8, 0x00, 0x00, 0x00] + seq![
        0x11u8,
        0x01,
        0x04,
        0x00,
    ] + seq![0x01u8, 0x00, 0x00, 0x00] + spec_u32_to_le_bytes(146) + seq![
        0x15u8,
        0x01,
        0x03,
        0x00,
    ] + seq![0x01u8, 0x00, 0x00, 0x00] + seq![0x04u8, 0x00, 0x00, 0x00] + seq![
        0x16u8,
        0x01,
        0x04,
        0x00,
    ] + seq![0x01u8, 0x00, 0x00, 0x00] + spec_u32_to_le_bytes(height) + seq![
        0x17u8,
        0x01,
        0x04,
        0x00,
    ] + seq![0x01u8, 0x00, 0x00, 0x00] + spec_u32_to_le_bytes(
        (width * height * 4) as u32,
    ) + seq![0x1Cu8, 0x01, 0x03, 0x00] + seq![0x01u8, 0x00, 0x00, 0x00] + seq![
        0x01u8,
        0x00,
        0x00,
        0x00,
    ] + seq![0x52u8, 0x01, 0x03, 0x00] + seq![0x01u8, 0x00, 0x00, 0x00] + seq![
        0x02u8,
        0x00,
        0x00,
        0x00,
    ] + seq![0x00u8, 0x00, 0x00, 0x00] + rgba
}

/// Builds an uncompressed TIFF rendering of an RGBA pixel buffer, the form
/// platform pasteboards accept as a universal raster fallback.
pub fn create_tiff_data(width: u32, height: u32, rgba_data: &[u8]) -> (r: Vec<u8>)
    requires
        (width as int) * (height as int) * 4 <= u32::MAX,
    ensures
        r@ == spec_tiff(width, height, rgba_data@),
{
    let byte_count: u32 = ((width as u64) * (height as u64) * 4) as u32;
    let mut tiff: Vec<u8> = Vec::new();
    push4(&mut tiff, 0x49, 0x49, 0x2A, 0x00);
    push4(&mut tiff, 0x08, 0x00, 0x00, 0x00);
    push2(&mut tiff, 0x0B, 0x00);
    push4(&mut tiff, 0x00, 0x01, 0x04, 0x00);
    push4(&mut tiff, 0x01, 0x00, 0x00, 0x00);
    push_le32(&mut tiff, width);
    push4(&mut tiff, 0x01, 0x01, 0x04, 0x00);
    push4(&mut tiff, 0x01, 0x00, 0x00, 0x00);
    push_le32(&mut tiff, height);
    push4(&mut tiff, 0x02, 0x01, 0x03, 0x00);
    push4(&mut tiff, 0x04, 0x00, 0x00, 0x00);
    push4(&mut tiff, 0x08, 0x00, 0x08, 0x00);
    push4(&mut tiff, 0x08, 0x00, 0x08, 0x00);
    push4(&mut tiff, 0x03, 0x01, 0x03, 0x00);
    push4(&mut tiff, 0x01, 0x00, 0x00, 0x00);
    push4(&mut tiff, 0x01, 0x00, 0x00, 0x00);
    push4(&mut tiff, 0x06, 0x01, 0x03, 0x00);
    push4(&mut tiff, 0x01, 0x00, 0x00, 0x00);
    push4(&mut tiff, 0x02, 0x00, 0x00, 0x00);
    push4(&mut tiff, 0x11, 0x01, 0x04, 0x00);
    push4(&mut tiff, 0x01, 0x00, 0x00, 0x00);
    push_le32(&mut tiff, 146);
    push4(&mut tiff, 0x15, 0x01, 0x03, 0x00);
    push4(&mut tiff, 0x01, 0x00, 0x00, 0x00);
    push4(&mut tiff, 0x04, 0x00, 0x00, 0x00);
    push4(&mut tiff, 0x16, 0x01, 0x04, 0x00);
    push4(&mut tiff, 0x01, 0x00, 0x00, 0x00);
    push_le32(&mut tiff, height);
    push4(&mut tiff, 0x17, 0x01, 0x04, 0x00);
    push4(&mut tiff, 0x01, 0x00, 0x00, 0x00);
    push_le32(&mut tiff, byte_count);
    push4(&mut tiff, 0x1C, 0x01, 0x03, 0x00);
    push4(&mut tiff, 0x01, 0x00, 0x00, 0x00);
    push4(&mut tiff, 0x01, 0x00, 0x00, 0x00);
    push4(&mut tiff, 0x52, 0x01, 0x03, 0x00);
    push4(&mut tiff, 0x01, 0x00, 0x00, 0x00);
    push4(&mut tiff, 0x02, 0x00, 0x00, 0x00);
    push4(&mut tiff, 0x00, 0x00, 0x00, 0x00);
    push_slice(&mut tiff, rgba_data);
    proof {
        assert(tiff@ =~= spec_tiff(width, height, rgba_data@));
    }
    tiff
}

/// The decoded RGBA pixel buffer of a byte string, four bytes per pixel in
/// row-major order. A function of the bytes alone.
pub uninterp spec fn rgba_of(b: Seq<u8>) -> Seq<u8>;

/// Relies on `image::load_from_memory`, `DynamicImage::to_rgba8` and the
/// pixel-buffer layout of `ImageBuffer`: decoding fails exactly when the
/// bytes are not an image, and the buffer holds width times height pixels
/// of four bytes each.
#[verifier::external_body]
fn decode_rgba(b: &[u8]) -> (r: Option<(u32, u32, Vec<u8>)>)
    ensures
        r is Some <==> decoded_dims(b@) is Some,
        r matches Some(t) ==> Some((t.0, t.1)) == decoded_dims(b@) && t.2@ == rgba_of(
            b@,
        ) && t.2@.len() == (t.0 as int) * (t.1 as int) * 4,
{
    let img = match image::load_from_memory(b) {
        Ok(i) => i,
        Err(_) => return None,
    };
    let rgba = img.to_rgba8();
    let (w, h) = image::GenericImageView::dimensions(&img);
    Some((w, h, rgba.into_raw()))
}

/// The platform type tag for raw file bytes of this extension.
pub open spec fn spec_uti(ext: Seq<char>) -> Seq<char> {
    if eq_nocase(ext, "gif"@) {
        "com.compuserve.gif"@
    } else if eq_nocase(ext, "png"@) {
        "public.png"@
    } else if eq_nocase(ext, "jpg"@) || eq_nocase(ext, "jpeg"@) {
        "public.jpeg"@
    } else {
        "public.png"@
    }
}

/// Everything a clipboard writer needs for one asset, however it encodes.
pub struct ClipboardContent {
    /// The platform type tag under which `data` may be placed natively.
    pub uti: String,
    /// The asset's original bytes, for a native writer.
    pub data: Vec<u8>,
    pub width: u32,
    pub height: u32,
    /// The decoded pixels, for a generic RGBA writer.
    pub rgba: Vec<u8>,
    /// An uncompressed TIFF rendering, carried alongside GIF sources for
    /// consumers that cannot take the GIF itself.
    pub tiff: Option<Vec<u8>>,
    /// Set for GIF sources: a raster writer loses the animation.
    pub gif_warning: bool,
}

/// Decodes an asset into the content a clipboard writer consumes. The type
/// tag follows the file name's extension, compared ignoring ASCII case;
/// bytes that do not decode — or whose pixel buffer exceeds what a TIFF
/// rendering can carry — are a decode failure.
pub fn prepare_clipboard_content(file_bytes: &Vec<u8>, file_name: &str) -> (r: Result<
    ClipboardContent,
    MediaError,
>)
    ensures
        r is Ok <==> (decoded_dims(file_bytes@) matches Some(d) && (d.0 as int) * (
        d.1 as int) * 4 <= u32::MAX),
        r is Err ==> r == Err::<ClipboardContent, MediaError>(MediaError::DecodeError),
        r matches Ok(c) ==> {
            &&& decoded_dims(file_bytes@) == Some((c.width, c.height))
            &&& c.rgba@ == rgba_of(file_bytes@)
            &&& c.rgba@.len() == (c.width as int) * (c.height as int) * 4
            &&& c.data@ == file_bytes@
            &&& c.uti@ == spec_uti(spec_extension(file_name@))
            &&& eq_nocase(spec_extension(file_name@), "gif"@) ==> (c.tiff matches Some(
                t,
            ) && t@ == spec_tiff(c.width, c.height, rgba_of(file_bytes@))
                && c.gif_warning)
            &&& !eq_nocase(spec_extension(file_name@), "gif"@) ==> (c.tiff is None
                && !c.gif_warning)
        },
{
    let (width, height, rgba) = match decode_rgba(file_bytes.as_slice()) {
        Some(t) => t,
        None => {
            return Err(MediaError::DecodeError);
        },
    };
    proof {
        assert((width as int) * (height as int) <= 0xffff_ffff * 0xffff_ffff)
            by (nonlinear_arith)
            requires
                width <= 0xffff_ffffu32,
                height <= 0xffff_ffffu32,
        ;
    }
    let pixels: u64 = (width as u64) * (height as u64);
    if pixels > 0x3fff_ffffu64 {
        return Err(MediaError::DecodeError);
    }
    let ext = extension_or_png(file_name);
    let is_gif = str_eq_nocase(ext.as_str(), "gif");
    let uti = if is_gif {
        String::from_str("com.compuserve.gif")
    } else if str_eq_nocase(ext.as_str(), "png") {
        String::from_str("public.png")
    } else if str_eq_nocase(ext.as_str(), "jpg") || str_eq_nocase(ext.as_str(), "jpeg") {
        String::from_str("public.jpeg")
    } else {
        String::from_str("public.png")
    };
    let tiff = if is_gif {
        Some(create_tiff_data(width, height, rgba.as_slice()))
    } else {
        None
    };
    Ok(
        ClipboardContent {
            uti,
            data: crate::content::clone_bytes(file_bytes),
            width,
            height,
            rgba,
            tiff,
            gif_warning: is_gif,
        },
    )
}

} // verus!
