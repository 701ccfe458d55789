//! The thumbnail pipeline: a source image is decoded, downsampled to fit
//! within a square bounding box for each requested edge length (preserving
//! the aspect ratio, Lanczos resampling), re-encoded as WebP and written as
//! `<thumbsDir>/<stem>_<size>.webp`. A decode failure aborts the whole call:
//! partial thumbnail sets are never committed.

use vstd::prelude::*;
use vstd::arithmetic::div_mod::lemma_fundamental_div_mod;
use vstd::math::abs;
use crate::arith::{lemma_div_le, lemma_div_pos};
use crate::content::{ContentStore, lookup, put_model, content_address, spec_store_path, lemma_store_path_stem, lemma_store_path_slash};
use crate::error::MediaError;
use crate::paths::{path_join, spec_stem, thumb_name, join_under, stem_of, thumb_file_name};

verus! {

/// The three requested thumbnail edge lengths, in pixels.
#[derive(Clone, Copy, Debug, PartialEq, Eq, Structural)]
pub struct ThumbnailSizes {
    pub small: u32,
    pub medium: u32,
    pub large: u32,
}

impl ThumbnailSizes {
    /// The canonical renditions: small 128, medium 256, large 512.
    pub fn canonical() -> (r: ThumbnailSizes)
        ensures
            r == (ThumbnailSizes { small: 128u32, medium: 256u32, large: 512u32 }),
    {
        ThumbnailSizes { small: 128, medium: 256, large: 512 }
    }
}

/// Where the thumbnails of one source land.
pub struct ThumbnailPaths {
    pub small: String,
    pub medium: String,
    pub large: String,
}

/// The dimensions a decoder reports for a byte string, when it parses as a
/// raster image. A function of the bytes alone.
pub uninterp spec fn decoded_dims(b: Seq<u8>) -> Option<(u32, u32)>;

/// Whether the bytes decode to an image with positive dimensions.
pub open spec fn source_usable(b: Seq<u8>) -> bool {
    match decoded_dims(b) {
        Some(d) => d.0 >= 1 && d.1 >= 1,
        None => false,
    }
}

/// Relies on `image::load_from_memory` and `GenericImageView::dimensions`:
/// whether bytes parse as an image, and the dimensions reported, depend on
/// the bytes alone.
#[verifier::external_body]
fn probe_dims(b: &[u8]) -> (r: Option<(u32, u32)>)
    ensures
        r == decoded_dims(b@),
{
    match image::load_from_memory(b) {
        Ok(img) => Some(image::GenericImageView::dimensions(&img)),
        Err(_) => None,
    }
}

/// What the pipeline produces for one source and one target box: the source
/// decoded, resampled to exactly that box, re-encoded as lossless WebP. A
/// function of the bytes and the target dimensions alone.
pub uninterp spec fn webp_thumb(b: Seq<u8>, tw: u32, th: u32) -> Seq<u8>;

/// Relies on `image::load_from_memory`, `DynamicImage::resize_exact` with the
/// Lanczos3 filter, `DynamicImage::to_rgba8` and `WebPEncoder::encode`: the
/// result depends on the bytes and target dimensions alone; decoding fails
/// exactly when the bytes are not an image, and the WebP format admits every
/// dimension in `1..=16384`.
#[verifier::external_body]
fn resize_to_webp(b: &[u8], tw: u32, th: u32) -> (r: Option<Vec<u8>>)
    requires
        1 <= tw <= 16384,
        1 <= th <= 16384,
        decoded_dims(b@) matches Some(d) ==> d.0 >= 1 && d.1 >= 1,
    ensures
        r is Some <==> decoded_dims(b@) is Some,
        r matches Some(v) ==> v@ == webp_thumb(b@, tw, th),
{
    let img = image::load_from_memory(b).ok()?;
    let out = img.resize_exact(tw, th, image::imageops::FilterType::Lanczos3).to_rgba8();
    let mut cur = std::io::Cursor::new(Vec::new());
    let enc = image::codecs::webp::WebPEncoder::new_lossless(&mut cur);
    let color = image::ExtendedColorType::Rgba8;
    image::ImageEncoder::write_image(enc, out.as_raw(), tw, th, color).ok()?;
    Some(cur.into_inner())
}

/// Rounding to nearest (half up) of `a * t / b`, floored at one pixel.
pub open spec fn scale_round(a: int, b: int, t: int) -> int {
    let q = (2 * a * t + b) / (2 * b);
    if q < 1 {
        1
    } else {
        q
    }
}

/// The width of the largest box of aspect `w : h` fitting within `t` by `t`.
pub open spec fn fit_width(w: int, h: int, t: int) -> int {
    if w >= h {
        t
    } else {
        scale_round(w, h, t)
    }
}

/// The height of the largest box of aspect `w : h` fitting within `t` by `t`.
pub open spec fn fit_height(w: int, h: int, t: int) -> int {
    if w >= h {
        scale_round(h, w, t)
    } else {
        t
    }
}

/// Law: for every positive source size and requested edge length, the fitted
/// box stays within `t` by `t`, touches it on the long side, and preserves
/// the aspect ratio up to half a pixel whenever the short side is not pinned
/// at the one-pixel floor.
pub proof fn lemma_thumbnail_fit_bounds(w: int, h: int, t: int)
    requires
        1 <= w,
        1 <= h,
        1 <= t,
    ensures
        1 <= fit_width(w, h, t) <= t,
        1 <= fit_height(w, h, t) <= t,
        fit_width(w, h, t) == t || fit_height(w, h, t) == t,
        w >= h && 2 * h * t >= w ==> abs(2 * w * fit_height(w, h, t) - 2 * h * t) <= w,
        w < h && 2 * w * t >= h ==> abs(2 * h * fit_width(w, h, t) - 2 * w * t) <= h,
{
    if w >= h {
        lemma_scale_round_bounds(h, w, t);
    } else {
        lemma_scale_round_bounds(w, h, t);
    }
}

proof fn lemma_scale_round_bounds(a: int, b: int, t: int)
    requires
        1 <= a <= b,
        1 <= t,
    ensures
        1 <= scale_round(a, b, t) <= t,
        2 * a * t >= b ==> abs(2 * b * scale_round(a, b, t) - 2 * a * t) <= b,
{
    let num = 2 * a * t + b;
    let den = 2 * b;
    let q = num / den;
    assert(2 * a * t + b >= 0 && 2 * a * t + b <= (2 * b) * t + (2 * b - 1)) by (nonlinear_arith)
        requires
            1 <= a <= b,
            1 <= t,
    ;
    lemma_div_le(num, den, t);
    if 2 * a * t >= b {
        lemma_div_pos(num, den);
        assert(q >= 1);
        assert(scale_round(a, b, t) == q);
        lemma_fundamental_div_mod(num, den);
        let r = num % den;
        assert(den * q == num - r);
        assert(2 * b * q - 2 * a * t == b - r);
        assert(abs(2 * b * q - 2 * a * t) <= b);
    }
}

/// Where the thumbnail of the source at `source_path` lands for one size.
pub open spec fn thumb_path_for(
    thumbs_dir: Seq<char>,
    source_path: Seq<char>,
    size: int,
) -> Seq<char> {
    path_join(thumbs_dir, thumb_name(spec_stem(source_path), size))
}

/// The last separator of a thumbnail path stands right after the thumbs
/// directory, provided the stem holds none.
proof fn lemma_thumb_path_slash(dir: Seq<char>, stem: Seq<char>, size: int)
    requires
        forall|i: int| 0 <= i < stem.len() ==> #[trigger] stem[i] != '/',
    ensures
        crate::text::spec_rfind(path_join(dir, thumb_name(stem, size)), '/') == Some(
            dir.len() as int,
        ),
{
    let nm = thumb_name(stem, size);
    let path = path_join(dir, nm);
    crate::text::lemma_dec_digits_clean(size);
    lemma_webp_suffix_clean();
    assert(path[dir.len() as int] == '/');
    assert forall|j: int| dir.len() < j < path.len() implies path[j] != '/' by {
        let k = j - dir.len() - 1;
        assert(path[j] == nm[k]);
        let digits = crate::text::spec_dec_digits(size);
        if k < stem.len() {
            assert(nm[k] == stem[k]);
        } else if k == stem.len() {
            assert(nm[k] == '_');
        } else if k < stem.len() + 1 + digits.len() {
            assert(nm[k] == digits[k - stem.len() - 1]);
        } else {
            assert(nm[k] == ".webp"@[k - stem.len() - 1 - digits.len()]);
        }
    }
    crate::text::lemma_rfind_exact(path, '/', dir.len() as int);
}

proof fn lemma_webp_suffix_clean()
    ensures
        ".webp"@.len() == 5,
        forall|i: int| 0 <= i < 5 ==> #[trigger] ".webp"@[i] != '/',
{
    reveal_strlit(".webp");
}

/// Law of the naming scheme: a derived thumbnail never lands on the
/// canonical file it was derived from — the two names differ right after
/// the content address.
pub proof fn lemma_thumb_path_distinct(
    assets_dir: Seq<char>,
    thumbs_dir: Seq<char>,
    b: Seq<u8>,
    name: Seq<char>,
    size: int,
)
    requires
        content_address(b).len() > 0,
    ensures
        thumb_path_for(thumbs_dir, spec_store_path(assets_dir, b, name), size)
            != spec_store_path(assets_dir, b, name),
{
    let hash = content_address(b);
    let p = spec_store_path(assets_dir, b, name);
    let t = thumb_path_for(thumbs_dir, p, size);
    lemma_store_path_stem(assets_dir, b, name);
    crate::text::lemma_hex_chars(crate::content::sha256_of(b));
    if t == p {
        lemma_store_path_slash(assets_dir, b, name);
        lemma_thumb_path_slash(thumbs_dir, hash, size);
        assert(assets_dir.len() == thumbs_dir.len());
        let idx = assets_dir.len() + 1 + hash.len();
        let nm_p = crate::paths::canonical_name(hash, crate::paths::spec_extension(name));
        let nm_t = thumb_name(hash, size);
        assert(p[idx as int] == nm_p[hash.len() as int]);
        assert(nm_p[hash.len() as int] == '.');
        assert(t[idx as int] == nm_t[hash.len() as int]);
        assert(nm_t[hash.len() as int] == '_');
        assert(false);
    }
}

/// The bytes of the rendition the pipeline derives from `b` for edge `size`.
pub open spec fn thumb_output(b: Seq<u8>, size: u32) -> Seq<u8>
    recommends
        source_usable(b),
{
    let d = decoded_dims(b)->Some_0;
    webp_thumb(
        b,
        fit_width(d.0 as int, d.1 as int, size as int) as u32,
        fit_height(d.0 as int, d.1 as int, size as int) as u32,
    )
}

/// Computes the fitted box for a `w` by `h` source and edge length `t`.
pub fn fit_box(w: u32, h: u32, t: u32) -> (r: (u32, u32))
    requires
        1 <= w,
        1 <= h,
        1 <= t,
    ensures
        r.0 == fit_width(w as int, h as int, t as int),
        r.1 == fit_height(w as int, h as int, t as int),
{
    if w >= h {
        let q = scale_round_exec(h, w, t);
        (t, q)
    } else {
        let q = scale_round_exec(w, h, t);
        (q, t)
    }
}

fn scale_round_exec(a: u32, b: u32, t: u32) -> (q: u32)
    requires
        1 <= a,
        a <= b,
        1 <= t,
    ensures
        q == scale_round(a as int, b as int, t as int),
{
    proof {
        lemma_scale_round_bounds(a as int, b as int, t as int);
        assert((a as int) * (t as int) <= 0xffff_ffff * 0xffff_ffff) by (nonlinear_arith)
            requires
                a <= 0xffff_ffffu32,
                t <= 0xffff_ffffu32,
        ;
    }
    let at: u128 = (a as u128) * (t as u128);
    let num: u128 = 2 * at + (b as u128);
    let den: u128 = 2 * (b as u128);
    proof {
        assert(num as int == 2 * (a as int) * (t as int) + (b as int)) by (nonlinear_arith)
            requires
                at as int == (a as int) * (t as int),
                num as int == 2 * (at as int) + (b as int),
        ;
    }
    let q0 = num / den;
    if q0 < 1 {
        1
    } else {
        q0 as u32
    }
}

/// Derives one rendition of `bytes` (which decode to `w` by `h`) and writes
/// it under the thumbs directory as `<stem>_<size>.webp`.
fn derive_one(
    store: &mut ContentStore,
    bytes: &Vec<u8>,
    stem: &str,
    w: u32,
    h: u32,
    size: u32,
) -> (p: String)
    requires
        old(store).wf(),
        decoded_dims(bytes@) == Some::<(u32, u32)>((w, h)),
        w >= 1,
        h >= 1,
        1 <= size <= 16384,
    ensures
        final(store).wf(),
        final(store).assets_dir == old(store).assets_dir,
        final(store).thumbs_dir == old(store).thumbs_dir,
        p@ == path_join(old(store).thumbs_dir@, thumb_name(stem@, size as int)),
        final(store).entries() == put_model(
            old(store).entries(),
            p@,
            thumb_output(bytes@, size),
        ),
        lookup(final(store).entries(), p@) == Some(thumb_output(bytes@, size)),
        forall|q: Seq<char>|
            q != p@ ==> lookup(final(store).entries(), q) == lookup(
                old(store).entries(),
                q,
            ),
{
    proof {
        lemma_thumbnail_fit_bounds(w as int, h as int, size as int);
    }
    let (tw, th) = fit_box(w, h, size);
    let data = match resize_to_webp(bytes.as_slice(), tw, th) {
        Some(v) => v,
        None => {
            proof {
                assert(false);
            }
            Vec::new()
        },
    };
    let tn = thumb_file_name(stem, size);
    let p = join_under(store.thumbs_dir.as_str(), tn.as_str());
    let p_copy = p.clone();
    store.put_file(p, data);
    p_copy
}

/// Decodes the source at `source_path` in the store and derives the three
/// renditions, keyed by the source's stem. A source that is missing, fails
/// to decode, or has no stem aborts the call with nothing committed; a
/// decode failure never commits a partial thumbnail set.
pub fn derive_thumbnails(
    store: &mut ContentStore,
    source_path: &str,
    sizes: &ThumbnailSizes,
) -> (r: Result<ThumbnailPaths, MediaError>)
    requires
        old(store).wf(),
        1 <= sizes.small <= 16384,
        1 <= sizes.medium <= 16384,
        1 <= sizes.large <= 16384,
    ensures
        final(store).wf(),
        final(store).assets_dir == old(store).assets_dir,
        final(store).thumbs_dir == old(store).thumbs_dir,
        r is Ok <==> (lookup(old(store).entries(), source_path@) matches Some(b)
            && source_usable(b) && spec_stem(source_path@).len() > 0),
        match r {
            Ok(tp) => lookup(old(store).entries(), source_path@) matches Some(b) && {
                &&& tp.small@ == thumb_path_for(
                    old(store).thumbs_dir@,
                    source_path@,
                    sizes.small as int,
                )
                &&& tp.medium@ == thumb_path_for(
                    old(store).thumbs_dir@,
                    source_path@,
                    sizes.medium as int,
                )
                &&& tp.large@ == thumb_path_for(
                    old(store).thumbs_dir@,
                    source_path@,
                    sizes.large as int,
                )
                &&& final(store).entries() == put_model(
                    put_model(
                        put_model(
                            old(store).entries(),
                            tp.small@,
                            thumb_output(b, sizes.small),
                        ),
                        tp.medium@,
                        thumb_output(b, sizes.medium),
                    ),
                    tp.large@,
                    thumb_output(b, sizes.large),
                )
                &&& lookup(final(store).entries(), tp.large@) == Some(
                    thumb_output(b, sizes.large),
                )
                &&& forall|q: Seq<char>|
                    q != tp.small@ && q != tp.medium@ && q != tp.large@ ==> lookup(
                        final(store).entries(),
                        q,
                    ) == lookup(old(store).entries(), q)
            },
            Err(e) => {
                &&& *final(store) == *old(store)
                &&& e == MediaError::NotFound || e == MediaError::DecodeError || e
                    == MediaError::IoError
                &&& (e == MediaError::NotFound <==> lookup(
                    old(store).entries(),
                    source_path@,
                ) is None)
                &&& (e == MediaError::DecodeError <==> (lookup(
                    old(store).entries(),
                    source_path@,
                ) matches Some(b) && !source_usable(b)))
                &&& (e == MediaError::IoError <==> (lookup(
                    old(store).entries(),
                    source_path@,
                ) matches Some(b) && source_usable(b) && spec_stem(source_path@).len()
                    == 0))
            },
        },
{
    let bytes = match store.read_all_bytes(source_path) {
        Ok(b) => b,
        Err(_) => {
            return Err(MediaError::NotFound);
        },
    };
    let dims = match probe_dims(bytes.as_slice()) {
        Some(d) => d,
        None => {
            return Err(MediaError::DecodeError);
        },
    };
    let (w, h) = dims;
    if w < 1 || h < 1 {
        return Err(MediaError::DecodeError);
    }
    let stem = stem_of(source_path);
    if stem.as_str().unicode_len() == 0 {
        return Err(MediaError::IoError);
    }
    let small = derive_one(store, &bytes, stem.as_str(), w, h, sizes.small);
    let medium = derive_one(store, &bytes, stem.as_str(), w, h, sizes.medium);
    let large = derive_one(store, &bytes, stem.as_str(), w, h, sizes.large);
    Ok(ThumbnailPaths { small, medium, large })
}

} // verus!
