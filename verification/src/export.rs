//! Bulk export: a list of asset paths becomes one compressed archive, each
//! existing source file stored under its base name, and the count of files
//! archived is returned. Per-item failures are recovered locally and are
//! never fatal: a missing source is skipped, a stored path whose final
//! segment is empty has no entry name and is skipped, and of entries with
//! a repeated base name the archive keeps the first.

use vstd::prelude::*;
use crate::content::{ContentStore, lookup};
use crate::paths::{last_component, last_component_of};
use crate::text::{spec_dec_digits, ends_with, push_dec_u64};

verus! {

/// One uncompressed entry may span at most this many bytes before the
/// writer demands the large-file format.
pub const ZIP_ENTRY_LIMIT: u64 = 0xffff_ffff;

/// An entry name this long is sure to fit the format's 16-bit name-length
/// field, whose limit counts UTF-8 bytes: at most four per character.
pub const ZIP_NAME_LIMIT: usize = 16383;

/// An archive being written in memory. The writer's type cannot be named
/// to the verifier (its bounds are outside traits), so it sits opaquely in
/// this holder; `zip_entries` names what it holds.
#[verifier::external_body]
pub struct ArchiveWriter {
    inner: zip::ZipWriter<std::io::Cursor<Vec<u8>>>,
}

/// The (entry name, uncompressed bytes) pairs an in-memory archive writer
/// holds so far, in order.
pub uninterp spec fn zip_entries(w: ArchiveWriter) -> Seq<(Seq<char>, Seq<u8>)>;

/// Whether some archive entry carries this name.
pub open spec fn has_entry_name(es: Seq<(Seq<char>, Seq<u8>)>, n: Seq<char>) -> bool {
    exists|j: int| 0 <= j < es.len() && es[j].0 == n
}

/// Relies on `zip::ZipWriter::new` over an empty in-memory cursor: a fresh
/// archive holds no entries.
#[verifier::external_body]
fn zip_new() -> (w: ArchiveWriter)
    ensures
        zip_entries(w) == Seq::<(Seq<char>, Seq<u8>)>::empty(),
{
    ArchiveWriter { inner: zip::ZipWriter::new(std::io::Cursor::new(Vec::new())) }
}

/// Relies on `zip::ZipWriter::start_file` (Deflate, mode 755), `write_all`
/// and `abort_file`: an entry within the format's name and size limits is
/// accepted exactly when its name is not already in the archive —
/// in-memory writes cannot otherwise fail — and a rejected or aborted
/// entry leaves the archive's entries unchanged.
#[verifier::external_body]
fn zip_add(w: &mut ArchiveWriter, name: &String, data: &Vec<u8>) -> (r: bool)
    requires
        name@.len() <= ZIP_NAME_LIMIT,
        data@.len() <= ZIP_ENTRY_LIMIT,
    ensures
        r == !has_entry_name(zip_entries(*old(w)), name@),
        r ==> zip_entries(*final(w)) == zip_entries(*old(w)).push((name@, data@)),
        !r ==> zip_entries(*final(w)) == zip_entries(*old(w)),
{
    let opts = zip::write::SimpleFileOptions::default().compression_method(
        zip::CompressionMethod::Deflated,
    ).unix_permissions(0o755);
    if w.inner.start_file(name.as_str(), opts).is_err() {
        return false;
    }
    if std::io::Write::write_all(&mut w.inner, data.as_slice()).is_ok() {
        true
    } else {
        w.inner.abort_file().is_ok() && false
    }
}

/// Relies on `zip::ZipWriter::finish` and `Cursor::into_inner`: finishing
/// an in-memory archive cannot fail. The bytes' exact form is not modeled.
#[verifier::external_body]
fn zip_finish(w: ArchiveWriter) -> (r: Option<Vec<u8>>)
    ensures
        r is Some,
{
    match w.inner.finish() {
        Ok(c) => Some(c.into_inner()),
        Err(_) => None,
    }
}

/// What an export selects, walking the requested paths in order: a stored
/// path contributes (base name, contents); a missing one, or one whose
/// final segment is empty, contributes nothing.
pub open spec fn export_selection(
    files: Seq<(Seq<char>, Seq<u8>)>,
    paths: Seq<Seq<char>>,
) -> Seq<(Seq<char>, Seq<u8>)>
    decreases paths.len(),
{
    if paths.len() == 0 {
        Seq::empty()
    } else {
        let rest = export_selection(files, paths.drop_last());
        let p = paths.last();
        match lookup(files, p) {
            None => rest,
            Some(bts) => if last_component(p).len() == 0 {
                rest
            } else {
                rest.push((last_component(p), bts))
            },
        }
    }
}

/// What the archive accepts from a selection, in order: each entry whose
/// name no already-accepted entry carries — the writer keeps the first of
/// any repeated name — and whose name and bytes fit the format's limits.
pub open spec fn archive_entries(es: Seq<(Seq<char>, Seq<u8>)>) -> Seq<
    (Seq<char>, Seq<u8>),
>
    decreases es.len(),
{
    if es.len() == 0 {
        es
    } else {
        let rest = archive_entries(es.drop_last());
        if !has_entry_name(rest, es.last().0) && es.last().0.len() <= ZIP_NAME_LIMIT
            && es.last().1.len() <= ZIP_ENTRY_LIMIT {
            rest.push(es.last())
        } else {
            rest
        }
    }
}

/// Law: when the selected base names are pairwise distinct and every name
/// and file fits the format's limits, nothing is dropped — the archive
/// holds exactly the selection, so the count equals the selection's length.
pub proof fn lemma_distinct_names_all_archived(es: Seq<(Seq<char>, Seq<u8>)>)
    requires
        forall|i: int, j: int| 0 <= i < j < es.len() ==> es[i].0 != es[j].0,
        forall|i: int|
            0 <= i < es.len() ==> (#[trigger] es[i]).0.len() <= ZIP_NAME_LIMIT
                && es[i].1.len() <= ZIP_ENTRY_LIMIT,
    ensures
        archive_entries(es) == es,
    decreases es.len(),
{
    if es.len() > 0 {
        assert(forall|k: int|
            0 <= k < es.len() - 1 ==> es.drop_last()[k] == es[k]);
        lemma_distinct_names_all_archived(es.drop_last());
        if has_entry_name(es.drop_last(), es.last().0) {
            let j = choose|j: int|
                0 <= j < es.drop_last().len() && es.drop_last()[j].0 == es.last().0;
            assert(es[j].0 == es[es.len() - 1].0);
            assert(false);
        }
        assert(es.drop_last().push(es.last()) =~= es);
    }
}

/// One selected entry: the name it gets inside the archive and its bytes.
pub struct ExportEntry {
    pub name: String,
    pub bytes: Vec<u8>,
}

/// Walks the requested paths against the store and selects what the
/// archive will take, with the export's exact skip rules.
pub fn select_export_entries(store: &ContentStore, asset_paths: &Vec<String>) -> (r:
    Vec<ExportEntry>)
    requires
        store.wf(),
    ensures
        ({
            let es = export_selection(
                store.entries(),
                asset_paths@.map_values(|p: String| p@),
            );
            &&& r@.len() == es.len()
            &&& forall|k: int|
                0 <= k < es.len() ==> (#[trigger] r@[k]).name@ == es[k].0 && r@[k].bytes@
                    == es[k].1
        }),
{
    let ghost ps = asset_paths@.map_values(|p: String| p@);
    let n = asset_paths.len();
    let mut out: Vec<ExportEntry> = Vec::new();
    let mut i: usize = 0;
    proof {
        assert(ps.take(0) =~= Seq::<Seq<char>>::empty());
    }
    while i < n
        invariant
            i <= n,
            n == asset_paths@.len(),
            ps == asset_paths@.map_values(|p: String| p@),
            store.wf(),
            ({
                let es = export_selection(store.entries(), ps.take(i as int));
                out@.len() == es.len() && (forall|k: int|
                    0 <= k < es.len() ==> (#[trigger] out@[k]).name@ == es[k].0
                        && out@[k].bytes@ == es[k].1)
            }),
        decreases n - i,
    {
        proof {
            assert(ps.take(i + 1).drop_last() =~= ps.take(i as int));
            assert(ps.take(i + 1).last() == ps[i as int]);
            assert(ps[i as int] == asset_paths@[i as int]@);
        }
        let p = &asset_paths[i];
        match store.read_all_bytes(p.as_str()) {
            Ok(bytes) => {
                let name = last_component_of(p.as_str());
                if name.as_str().unicode_len() > 0 {
                    out.push(ExportEntry { name, bytes });
                }
            },
            Err(_) => {},
        }
        i += 1;
    }
    proof {
        assert(ps.take(n as int) =~= ps);
    }
    out
}

/// What one export produced: the archive bytes and how many source files
/// made it in.
pub struct ExportOutcome {
    pub archive: Vec<u8>,
    pub exported: usize,
}

/// Builds the compressed archive for the requested paths and counts what it
/// holds. Each stored path contributes its file under its base name; a
/// missing path, a path with no base name, a name or file over the
/// format's limits, and a repeated base name (the writer keeps the first)
/// are skipped, never fatal.
pub fn export_assets(store: &ContentStore, asset_paths: &Vec<String>) -> (r:
    ExportOutcome)
    requires
        store.wf(),
    ensures
        r.exported == archive_entries(
            export_selection(
                store.entries(),
                asset_paths@.map_values(|p: String| p@),
            ),
        ).len(),
{
    let entries = select_export_entries(store, asset_paths);
    let ghost es = export_selection(
        store.entries(),
        asset_paths@.map_values(|p: String| p@),
    );
    let mut w = zip_new();
    let mut count: usize = 0;
    let mut i: usize = 0;
    proof {
        assert(es.take(0) =~= Seq::<(Seq<char>, Seq<u8>)>::empty());
    }
    while i < entries.len()
        invariant
            i <= entries@.len(),
            entries@.len() == es.len(),
            forall|k: int|
                0 <= k < es.len() ==> (#[trigger] entries@[k]).name@ == es[k].0
                    && entries@[k].bytes@ == es[k].1,
            zip_entries(w) == archive_entries(es.take(i as int)),
            count == archive_entries(es.take(i as int)).len(),
            count <= i,
        decreases entries@.len() - i,
    {
        proof {
            assert(es.take(i + 1).drop_last() =~= es.take(i as int));
            assert(es.take(i + 1).last() == es[i as int]);
        }
        let fits = entries[i].name.as_str().unicode_len() <= ZIP_NAME_LIMIT
            && (entries[i].bytes.len() as u64) <= ZIP_ENTRY_LIMIT;
        if fits {
            if zip_add(&mut w, &entries[i].name, &entries[i].bytes) {
                count += 1;
            }
        }
        i += 1;
    }
    proof {
        assert(es.take(es.len() as int) =~= es);
    }
    match zip_finish(w) {
        Some(archive) => ExportOutcome { archive, exported: count },
        None => {
            proof {
                assert(false);
            }
            ExportOutcome { archive: Vec::new(), exported: count }
        },
    }
}

/// Where an export writes its archive: the destination itself when it
/// already names a `.zip` file, else a timestamped archive inside it.
pub open spec fn spec_export_path(dest: Seq<char>, now_secs: int) -> Seq<char> {
    if dest.len() >= 4 && dest.skip(dest.len() - 4) == ".zip"@ {
        dest
    } else {
        dest + "/meme_export_"@ + spec_dec_digits(now_secs) + ".zip"@
    }
}

/// Resolves the archive path for a destination chosen by the caller, with
/// the current Unix time naming a fresh archive inside a directory.
pub fn resolve_export_path(dest: &str, now_secs: u64) -> (r: String)
    ensures
        r@ == spec_export_path(dest@, now_secs as int),
{
    proof {
        reveal_strlit(".zip");
        assert(".zip"@.len() == 4);
    }
    if ends_with(dest, ".zip") {
        String::from_str(dest)
    } else {
        let mut s = String::from_str(dest);
        s.append("/meme_export_");
        push_dec_u64(&mut s, now_secs);
        s.append(".zip");
        proof {
            assert(dest@ + "/meme_export_"@ + spec_dec_digits(now_secs as int)
                + ".zip"@ =~= spec_export_path(dest@, now_secs as int));
        }
        s
    }
}

} // verus!
