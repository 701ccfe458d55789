//! The ingestion façade: raw bytes (a local save, or the body of a remote
//! fetch) are content-addressed, persisted, and rendered into the three
//! canonical thumbnail sizes, yielding one bundle per asset. Metadata rows
//! are a caller's responsibility, so preview-only flows can reuse this.

use vstd::prelude::*;
use crate::content::{
    ContentStore, content_address, lookup, put_model, spec_store_path, lemma_store_path_stem,
};
use crate::error::MediaError;
use crate::paths::{last_component, last_component_of};
use crate::text::{lemma_hex_len, hex_of};
use crate::thumbs::{
    ThumbnailSizes, derive_thumbnails, thumb_path_for, thumb_output, source_usable,
    lemma_thumb_path_distinct,
};

verus! {

/// What one ingestion produced: the canonical file, the name it was offered
/// under, its content address, and the three thumbnail paths.
pub struct AssetBundle {
    pub file_path: String,
    pub file_name: String,
    pub hash: String,
    pub thumb_small: String,
    pub thumb_medium: String,
    pub thumb_large: String,
}

/// The file name ingestion derives from a URL: its final path segment, or
/// the generic fallback when that segment is empty.
pub open spec fn spec_url_file_name(url: Seq<char>) -> Seq<char> {
    if last_component(url).len() == 0 {
        "image.png"@
    } else {
        last_component(url)
    }
}

/// Derives a file name from a URL's final path segment.
pub fn file_name_from_url(url: &str) -> (r: String)
    ensures
        r@ == spec_url_file_name(url@),
{
    let comp = last_component_of(url);
    if comp.as_str().unicode_len() == 0 {
        String::from_str("image.png")
    } else {
        comp
    }
}

/// Persists `bytes` content-addressably under `file_name`'s extension and
/// derives the three canonical renditions (small 128, medium 256, large
/// 512). The canonical file is written first and stays in place even when
/// thumbnail derivation fails; a failure to decode aborts with no thumbnail
/// committed.
pub fn ingest_from_bytes(store: &mut ContentStore, bytes: &Vec<u8>, file_name: &str)
    -> (r: Result<AssetBundle, MediaError>)
    requires
        old(store).wf(),
    ensures
        final(store).wf(),
        final(store).assets_dir == old(store).assets_dir,
        final(store).thumbs_dir == old(store).thumbs_dir,
        lookup(
            final(store).entries(),
            spec_store_path(old(store).assets_dir@, bytes@, file_name@),
        ) == Some(bytes@),
        r is Ok <==> source_usable(bytes@),
        r matches Ok(b) ==> {
            let p = spec_store_path(old(store).assets_dir@, bytes@, file_name@);
            &&& b.file_path@ == p
            &&& b.file_name@ == file_name@
            &&& b.hash@ == content_address(bytes@)
            &&& b.hash@.len() == 64
            &&& b.thumb_small@ == thumb_path_for(old(store).thumbs_dir@, p, 128)
            &&& b.thumb_medium@ == thumb_path_for(old(store).thumbs_dir@, p, 256)
            &&& b.thumb_large@ == thumb_path_for(old(store).thumbs_dir@, p, 512)
            &&& final(store).entries() == put_model(
                put_model(
                    put_model(
                        put_model(old(store).entries(), p, bytes@),
                        b.thumb_small@,
                        thumb_output(bytes@, 128),
                    ),
                    b.thumb_medium@,
                    thumb_output(bytes@, 256),
                ),
                b.thumb_large@,
                thumb_output(bytes@, 512),
            )
            &&& lookup(final(store).entries(), b.thumb_large@) == Some(
                thumb_output(bytes@, 512),
            )
        },
        r is Err ==> r == Err::<AssetBundle, MediaError>(MediaError::DecodeError)
            && final(store).entries() == put_model(
            old(store).entries(),
            spec_store_path(old(store).assets_dir@, bytes@, file_name@),
            bytes@,
        ),
{
    let receipt = store.store(bytes, file_name);
    proof {
        lemma_hex_len(crate::content::sha256_of(bytes@));
        lemma_store_path_stem(old(store).assets_dir@, bytes@, file_name@);
        lemma_thumb_path_distinct(
            old(store).assets_dir@,
            old(store).thumbs_dir@,
            bytes@,
            file_name@,
            128,
        );
        lemma_thumb_path_distinct(
            old(store).assets_dir@,
            old(store).thumbs_dir@,
            bytes@,
            file_name@,
            256,
        );
        lemma_thumb_path_distinct(
            old(store).assets_dir@,
            old(store).thumbs_dir@,
            bytes@,
            file_name@,
            512,
        );
    }
    let sizes = ThumbnailSizes::canonical();
    match derive_thumbnails(store, receipt.path.as_str(), &sizes) {
        Ok(tp) => Ok(
            AssetBundle {
                file_path: receipt.path,
                file_name: String::from_str(file_name),
                hash: receipt.address,
                thumb_small: tp.small,
                thumb_medium: tp.medium,
                thumb_large: tp.large,
            },
        ),
        Err(_) => Err(MediaError::DecodeError),
    }
}

} // verus!
