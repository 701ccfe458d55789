//! The content-addressable store: bytes are named by a cryptographic hash,
//! written under the assets directory as `<hash>.<ext>`, and removed together
//! with every known thumbnail rendition of the same stem.
//!
//! The store keeps a model of the file tree it manages (one entry per path);
//! callers that persist to a real filesystem mirror the operations one to one.

use vstd::prelude::*;
use crate::error::MediaError;
use crate::paths::{
    canonical_name, last_component, path_join, spec_extension, spec_stem, thumb_name,
    extension_or_png, join_under, stem_of, thumb_file_name,
};
use crate::text::{hex_of, bytes_to_hex};

verus! {

/// One file of the managed tree: its path and its contents.
pub struct StoredFile {
    pub path: String,
    pub bytes: Vec<u8>,
}

/// What the SHA-256 digest of a byte string is. The digest is a function of
/// the bytes alone; its value is not axiomatized here.
pub uninterp spec fn sha256_of(b: Seq<u8>) -> Seq<u8>;

/// The content address of a byte string: its SHA-256 digest in lowercase hex.
pub open spec fn content_address(b: Seq<u8>) -> Seq<char> {
    hex_of(sha256_of(b))
}

/// Relies on `sha2::Sha256` through `Digest::digest`: the digest depends on
/// the input bytes alone and is 32 bytes long.
#[verifier::external_body]
fn sha256_digest(b: &[u8]) -> (r: Vec<u8>)
    ensures
        r@ == sha256_of(b@),
        r@.len() == 32,
{
    <sha2::Sha256 as sha2::Digest>::digest(b).to_vec()
}

/// The contents at `p` among `entries`, scanning from the front.
pub open spec fn lookup(entries: Seq<(Seq<char>, Seq<u8>)>, p: Seq<char>) -> Option<
    Seq<u8>,
>
    decreases entries.len(),
{
    if entries.len() == 0 {
        None
    } else if entries[0].0 == p {
        Some(entries[0].1)
    } else {
        lookup(entries.skip(1), p)
    }
}

/// The tree after writing `b` at `p`: the first entry named `p` is replaced,
/// or a new entry is appended when the name is fresh.
pub open spec fn put_model(
    entries: Seq<(Seq<char>, Seq<u8>)>,
    p: Seq<char>,
    b: Seq<u8>,
) -> Seq<(Seq<char>, Seq<u8>)>
    decreases entries.len(),
{
    if entries.len() == 0 {
        seq![(p, b)]
    } else if entries[0].0 == p {
        seq![(p, b)] + entries.skip(1)
    } else {
        seq![entries[0]] + put_model(entries.skip(1), p, b)
    }
}

/// The tree after removing the first entry named `p`, if any.
pub open spec fn drop_model(entries: Seq<(Seq<char>, Seq<u8>)>, p: Seq<char>) -> Seq<
    (Seq<char>, Seq<u8>),
>
    decreases entries.len(),
{
    if entries.len() == 0 {
        entries
    } else if entries[0].0 == p {
        entries.skip(1)
    } else {
        seq![entries[0]] + drop_model(entries.skip(1), p)
    }
}

/// When `p` first occurs at index `i`, writing is updating in place.
pub proof fn lemma_put_model_update(
    entries: Seq<(Seq<char>, Seq<u8>)>,
    i: int,
    p: Seq<char>,
    b: Seq<u8>,
)
    requires
        0 <= i < entries.len(),
        entries[i].0 == p,
        forall|j: int| 0 <= j < i ==> entries[j].0 != p,
    ensures
        put_model(entries, p, b) == entries.update(i, (p, b)),
    decreases i,
{
    if i == 0 {
        assert(seq![(p, b)] + entries.skip(1) =~= entries.update(0, (p, b)));
    } else {
        assert(entries.skip(1)[i - 1] == entries[i]);
        assert(forall|j: int| 0 <= j < i - 1 ==> entries.skip(1)[j] == entries[j + 1]);
        lemma_put_model_update(entries.skip(1), i - 1, p, b);
        assert(seq![entries[0]] + entries.skip(1).update(i - 1, (p, b)) =~= entries.update(
            i,
            (p, b),
        ));
    }
}

/// When `p` is fresh, writing is appending.
pub proof fn lemma_put_model_push(entries: Seq<(Seq<char>, Seq<u8>)>, p: Seq<char>, b: Seq<u8>)
    requires
        forall|j: int| 0 <= j < entries.len() ==> entries[j].0 != p,
    ensures
        put_model(entries, p, b) == entries.push((p, b)),
    decreases entries.len(),
{
    if entries.len() == 0 {
        assert(seq![(p, b)] =~= entries.push((p, b)));
    } else {
        assert(forall|j: int|
            0 <= j < entries.len() - 1 ==> entries.skip(1)[j] == entries[j + 1]);
        lemma_put_model_push(entries.skip(1), p, b);
        assert(seq![entries[0]] + entries.skip(1).push((p, b)) =~= entries.push((p, b)));
    }
}

/// When `p` first occurs at index `i`, dropping is removal at `i`.
pub proof fn lemma_drop_model_remove(entries: Seq<(Seq<char>, Seq<u8>)>, i: int, p: Seq<char>)
    requires
        0 <= i < entries.len(),
        entries[i].0 == p,
        forall|j: int| 0 <= j < i ==> entries[j].0 != p,
    ensures
        drop_model(entries, p) == entries.remove(i),
    decreases i,
{
    if i == 0 {
        assert(entries.skip(1) =~= entries.remove(0));
    } else {
        assert(entries.skip(1)[i - 1] == entries[i]);
        assert(forall|j: int| 0 <= j < i - 1 ==> entries.skip(1)[j] == entries[j + 1]);
        lemma_drop_model_remove(entries.skip(1), i - 1, p);
        assert(seq![entries[0]] + entries.skip(1).remove(i - 1) =~= entries.remove(i));
    }
}

/// When `p` is absent, dropping changes nothing.
pub proof fn lemma_drop_model_absent(entries: Seq<(Seq<char>, Seq<u8>)>, p: Seq<char>)
    requires
        forall|j: int| 0 <= j < entries.len() ==> entries[j].0 != p,
    ensures
        drop_model(entries, p) == entries,
    decreases entries.len(),
{
    if entries.len() > 0 {
        assert(forall|j: int|
            0 <= j < entries.len() - 1 ==> entries.skip(1)[j] == entries[j + 1]);
        lemma_drop_model_absent(entries.skip(1), p);
        assert(seq![entries[0]] + entries.skip(1) =~= entries);
    }
}

/// If `p` first occurs at index `i`, the lookup returns that entry's bytes.
pub proof fn lemma_lookup_at_index(entries: Seq<(Seq<char>, Seq<u8>)>, i: int, p: Seq<char>)
    requires
        0 <= i < entries.len(),
        entries[i].0 == p,
        forall|j: int| 0 <= j < i ==> entries[j].0 != p,
    ensures
        lookup(entries, p) == Some(entries[i].1),
    decreases i,
{
    if i > 0 {
        assert(entries.skip(1)[i - 1] == entries[i]);
        assert(forall|j: int| 0 <= j < i - 1 ==> entries.skip(1)[j] == entries[j + 1]);
        lemma_lookup_at_index(entries.skip(1), i - 1, p);
    }
}

/// If no entry is named `p`, the lookup misses.
pub proof fn lemma_lookup_absent(entries: Seq<(Seq<char>, Seq<u8>)>, p: Seq<char>)
    requires
        forall|j: int| 0 <= j < entries.len() ==> entries[j].0 != p,
    ensures
        lookup(entries, p) is None,
    decreases entries.len(),
{
    if entries.len() > 0 {
        assert(forall|j: int|
            0 <= j < entries.len() - 1 ==> entries.skip(1)[j] == entries[j + 1]);
        lemma_lookup_absent(entries.skip(1), p);
    }
}

/// Replacing the first entry named `p` rewrites that name and no other.
pub proof fn lemma_lookup_update(
    entries: Seq<(Seq<char>, Seq<u8>)>,
    i: int,
    p: Seq<char>,
    b: Seq<u8>,
)
    requires
        0 <= i < entries.len(),
        entries[i].0 == p,
        forall|j: int| 0 <= j < i ==> entries[j].0 != p,
    ensures
        lookup(entries.update(i, (p, b)), p) == Some(b),
        forall|q: Seq<char>|
            q != p ==> lookup(entries.update(i, (p, b)), q) == lookup(entries, q),
    decreases i,
{
    let upd = entries.update(i, (p, b));
    if i == 0 {
        assert(upd.skip(1) =~= entries.skip(1));
        assert forall|q: Seq<char>| q != p implies lookup(upd, q) == lookup(
            entries,
            q,
        ) by {
            assert(lookup(upd, q) == lookup(upd.skip(1), q));
            assert(lookup(entries, q) == lookup(entries.skip(1), q));
        }
    } else {
        assert(upd[0] == entries[0]);
        assert(upd.skip(1) =~= entries.skip(1).update(i - 1, (p, b)));
        assert(entries.skip(1)[i - 1] == entries[i]);
        assert(forall|j: int| 0 <= j < i - 1 ==> entries.skip(1)[j] == entries[j + 1]);
        lemma_lookup_update(entries.skip(1), i - 1, p, b);
        assert forall|q: Seq<char>| q != p implies lookup(upd, q) == lookup(
            entries,
            q,
        ) by {
            if entries[0].0 != q {
                assert(lookup(upd, q) == lookup(upd.skip(1), q));
                assert(lookup(entries, q) == lookup(entries.skip(1), q));
            }
        }
    }
}

/// Appending an entry under a fresh name adds that name and no other.
pub proof fn lemma_lookup_push(entries: Seq<(Seq<char>, Seq<u8>)>, p: Seq<char>, b: Seq<u8>)
    requires
        forall|j: int| 0 <= j < entries.len() ==> entries[j].0 != p,
    ensures
        lookup(entries.push((p, b)), p) == Some(b),
        forall|q: Seq<char>|
            q != p ==> lookup(entries.push((p, b)), q) == lookup(entries, q),
    decreases entries.len(),
{
    let ext = entries.push((p, b));
    if entries.len() == 0 {
        assert(ext.skip(1) =~= Seq::<(Seq<char>, Seq<u8>)>::empty());
        assert forall|q: Seq<char>| q != p implies lookup(ext, q) == lookup(
            entries,
            q,
        ) by {
            assert(lookup(ext, q) == lookup(ext.skip(1), q));
        }
    } else {
        assert(ext[0] == entries[0]);
        assert(ext.skip(1) =~= entries.skip(1).push((p, b)));
        assert(forall|j: int|
            0 <= j < entries.len() - 1 ==> entries.skip(1)[j] == entries[j + 1]);
        lemma_lookup_push(entries.skip(1), p, b);
        assert(lookup(ext, p) == lookup(ext.skip(1), p));
        assert forall|q: Seq<char>| q != p implies lookup(ext, q) == lookup(
            entries,
            q,
        ) by {
            if entries[0].0 != q {
                assert(lookup(ext, q) == lookup(ext.skip(1), q));
                assert(lookup(entries, q) == lookup(entries.skip(1), q));
            }
        }
    }
}

/// Removing the only entry named `p` drops that name and no other.
pub proof fn lemma_lookup_remove(entries: Seq<(Seq<char>, Seq<u8>)>, i: int, p: Seq<char>)
    requires
        0 <= i < entries.len(),
        entries[i].0 == p,
        forall|j: int| 0 <= j < entries.len() && j != i ==> entries[j].0 != p,
    ensures
        lookup(entries.remove(i), p) is None,
        forall|q: Seq<char>|
            q != p ==> lookup(entries.remove(i), q) == lookup(entries, q),
    decreases i,
{
    let rem = entries.remove(i);
    if i == 0 {
        assert(rem =~= entries.skip(1));
        assert(forall|j: int|
            0 <= j < entries.len() - 1 ==> entries.skip(1)[j] == entries[j + 1]);
        lemma_lookup_absent(rem, p);
        assert forall|q: Seq<char>| q != p implies lookup(rem, q) == lookup(
            entries,
            q,
        ) by {
            assert(lookup(entries, q) == lookup(entries.skip(1), q));
        }
    } else {
        assert(rem[0] == entries[0]);
        assert(rem.skip(1) =~= entries.skip(1).remove(i - 1));
        assert(entries.skip(1)[i - 1] == entries[i]);
        assert(forall|j: int|
            0 <= j < entries.len() - 1 ==> entries.skip(1)[j] == entries[j + 1]);
        lemma_lookup_remove(entries.skip(1), i - 1, p);
        assert(lookup(rem, p) == lookup(rem.skip(1), p));
        assert forall|q: Seq<char>| q != p implies lookup(rem, q) == lookup(
            entries,
            q,
        ) by {
            if entries[0].0 != q {
                assert(lookup(rem, q) == lookup(rem.skip(1), q));
                assert(lookup(entries, q) == lookup(entries.skip(1), q));
            }
        }
    }
}

/// Copies a byte vector.
pub fn clone_bytes(v: &Vec<u8>) -> (r: Vec<u8>)
    ensures
        r@ == v@,
{
    let mut r: Vec<u8> = Vec::new();
    let mut i: usize = 0;
    while i < v.len()
        invariant
            i <= v@.len(),
            r@ == v@.subrange(0, i as int),
        decreases v@.len() - i,
    {
        r.push(v[i]);
        proof {
            assert(v@.subrange(0, i + 1) =~= v@.subrange(0, i as int).push(v@[i as int]));
        }
        i += 1;
    }
    proof {
        assert(v@.subrange(0, v@.len() as int) =~= v@);
    }
    r
}

/// Where `store` writes content `b` when the caller suggested `name`.
pub open spec fn spec_store_path(dir: Seq<char>, b: Seq<u8>, name: Seq<char>) -> Seq<
    char,
> {
    path_join(dir, canonical_name(content_address(b), spec_extension(name)))
}

/// The paths that removing a canonical file clears: the file itself and every
/// known thumbnail rendition of its stem.
pub open spec fn removal_targets(thumbs_dir: Seq<char>, p: Seq<char>) -> Seq<Seq<char>> {
    if spec_stem(p).len() == 0 {
        seq![p]
    } else {
        seq![
            p,
            path_join(thumbs_dir, thumb_name(spec_stem(p), 128)),
            path_join(thumbs_dir, thumb_name(spec_stem(p), 256)),
            path_join(thumbs_dir, thumb_name(spec_stem(p), 512)),
        ]
    }
}

/// One observability event of `remove_asset`: a path it attempted to clear,
/// and whether a file was there to remove.
pub struct RemoveEvent {
    pub path: String,
    pub removed: bool,
}

/// Law: storing a byte buffer and then reading the stored path back yields
/// exactly those bytes, whatever the tree held before.
pub proof fn lemma_store_read_round_trip(
    entries: Seq<(Seq<char>, Seq<u8>)>,
    p: Seq<char>,
    b: Seq<u8>,
)
    ensures
        lookup(put_model(entries, p, b), p) == Some(b),
    decreases entries.len(),
{
    if entries.len() == 0 {
    } else if entries[0].0 == p {
        assert(put_model(entries, p, b)[0] == (p, b));
    } else {
        lemma_store_read_round_trip(entries.skip(1), p, b);
        let after = put_model(entries, p, b);
        assert(after[0] == entries[0]);
        assert(after.skip(1) =~= put_model(entries.skip(1), p, b));
    }
}

/// Law: the content address, and with it the directory-and-address prefix of
/// the stored path, depends on the bytes alone, never on the suggested name.
pub proof fn lemma_store_address_deterministic(
    dir: Seq<char>,
    b: Seq<u8>,
    n1: Seq<char>,
    n2: Seq<char>,
)
    ensures
        spec_store_path(dir, b, n1).take(dir.len() + 1 + content_address(b).len() as int)
            == spec_store_path(dir, b, n2).take(
            dir.len() + 1 + content_address(b).len() as int,
        ),
{
    let k = dir.len() + 1 + content_address(b).len() as int;
    assert(spec_store_path(dir, b, n1).take(k) =~= dir + seq!['/'] + content_address(b));
    assert(spec_store_path(dir, b, n2).take(k) =~= dir + seq!['/'] + content_address(b));
}

/// The last separator of a stored path stands right after the directory:
/// neither the address nor the extension holds one.
pub proof fn lemma_store_path_slash(dir: Seq<char>, b: Seq<u8>, name: Seq<char>)
    ensures
        crate::text::spec_rfind(spec_store_path(dir, b, name), '/') == Some(
            dir.len() as int,
        ),
{
    let hash = content_address(b);
    let ext = spec_extension(name);
    let path = spec_store_path(dir, b, name);
    let nm = canonical_name(hash, ext);
    crate::text::lemma_hex_chars(sha256_of(b));
    crate::paths::lemma_extension_clean(name);
    assert(path[dir.len() as int] == '/');
    assert forall|j: int| dir.len() < j < path.len() implies path[j] != '/' by {
        let k = j - dir.len() - 1;
        assert(path[j] == nm[k]);
        if k < hash.len() {
            assert(nm[k] == hash[k]);
        } else if k == hash.len() {
            assert(nm[k] == '.');
        } else {
            assert(nm[k] == ext[k - hash.len() - 1]);
        }
    }
    crate::text::lemma_rfind_exact(path, '/', dir.len() as int);
}

/// The stem of a stored path is exactly the content address: hex digits
/// hold no separator or dot, and the extension is clean, so the canonical
/// name splits back into its parts.
pub proof fn lemma_store_path_stem(dir: Seq<char>, b: Seq<u8>, name: Seq<char>)
    requires
        content_address(b).len() > 0,
    ensures
        spec_stem(spec_store_path(dir, b, name)) == content_address(b),
{
    let hash = content_address(b);
    let ext = spec_extension(name);
    let path = spec_store_path(dir, b, name);
    let nm = canonical_name(hash, ext);
    crate::text::lemma_hex_chars(sha256_of(b));
    crate::paths::lemma_extension_clean(name);
    assert(path.len() == dir.len() + 1 + nm.len());
    assert(path[dir.len() as int] == '/');
    assert forall|j: int| dir.len() < j < path.len() implies path[j] != '/' by {
        let k = j - dir.len() - 1;
        assert(path[j] == nm[k]);
        if k < hash.len() {
            assert(nm[k] == hash[k]);
        } else if k == hash.len() {
            assert(nm[k] == '.');
        } else {
            assert(nm[k] == ext[k - hash.len() - 1]);
        }
    }
    crate::text::lemma_rfind_exact(path, '/', dir.len() as int);
    let comp = last_component(path);
    assert(comp =~= nm);
    assert(comp[hash.len() as int] == '.');
    assert forall|j: int| hash.len() < j < comp.len() implies comp[j] != '.' by {
        assert(comp[j] == ext[j - hash.len() - 1]);
    }
    crate::text::lemma_rfind_exact(comp, '.', hash.len() as int);
    assert(spec_stem(path) == comp.take(hash.len() as int));
    assert(comp.take(hash.len() as int) =~= hash);
}

/// The file store rooted at an assets directory and a thumbs directory.
pub struct ContentStore {
    pub assets_dir: String,
    pub thumbs_dir: String,
    pub files: Vec<StoredFile>,
}

/// A stored canonical file: where it was written and its content address.
pub struct StoreReceipt {
    pub path: String,
    pub address: String,
}

impl ContentStore {
    /// The abstract view of the managed tree: (path, contents) per file.
    pub open spec fn entries(&self) -> Seq<(Seq<char>, Seq<u8>)> {
        self.files@.map_values(|f: StoredFile| (f.path@, f.bytes@))
    }

    /// Paths are unique: the tree is a finite map.
    pub open spec fn wf(&self) -> bool {
        forall|i: int, j: int|
            0 <= i < j < self.files@.len() ==> self.files@[i].path@ != self.files@[j].path@
    }

    /// An empty store over the two directories.
    pub fn new(assets_dir: String, thumbs_dir: String) -> (r: ContentStore)
        ensures
            r.wf(),
            r.assets_dir == assets_dir,
            r.thumbs_dir == thumbs_dir,
            r.entries() =~= Seq::<(Seq<char>, Seq<u8>)>::empty(),
    {
        ContentStore { assets_dir, thumbs_dir, files: Vec::new() }
    }

    /// Index of the file at `p`, scanning from the front.
    fn find_index(&self, p: &str) -> (r: Option<usize>)
        ensures
            match r {
                Some(i) => i < self.files@.len() && self.files@[i as int].path@ == p@
                    && (forall|j: int|
                    0 <= j < i ==> self.files@[j].path@ != p@),
                None => forall|j: int|
                    0 <= j < self.files@.len() ==> self.files@[j].path@ != p@,
            },
    {
        let n = self.files.len();
        let pstr = String::from_str(p);
        let mut i: usize = 0;
        while i < n
            invariant
                i <= n,
                n == self.files@.len(),
                pstr@ == p@,
                forall|j: int| 0 <= j < i ==> self.files@[j].path@ != p@,
            decreases n - i,
        {
            if self.files[i].path == pstr {
                return Some(i);
            }
            i += 1;
        }
        None
    }

    /// Whether a file is stored at `p`. Never fails.
    pub fn file_exists(&self, p: &str) -> (r: bool)
        requires
            self.wf(),
        ensures
            r == (lookup(self.entries(), p@) is Some),
    {
        match self.find_index(p) {
            Some(i) => {
                proof {
                    lemma_lookup_at_index(self.entries(), i as int, p@);
                }
                true
            },
            None => {
                proof {
                    lemma_lookup_absent(self.entries(), p@);
                }
                false
            },
        }
    }

    /// Reads the full contents of the file at `p`.
    pub fn read_all_bytes(&self, p: &str) -> (r: Result<Vec<u8>, MediaError>)
        requires
            self.wf(),
        ensures
            match lookup(self.entries(), p@) {
                Some(b) => r is Ok && r->Ok_0@ == b,
                None => r == Result::<Vec<u8>, MediaError>::Err(MediaError::NotFound),
            },
    {
        match self.find_index(p) {
            Some(i) => {
                proof {
                    lemma_lookup_at_index(self.entries(), i as int, p@);
                }
                Ok(clone_bytes(&self.files[i].bytes))
            },
            None => {
                proof {
                    lemma_lookup_absent(self.entries(), p@);
                }
                Err(MediaError::NotFound)
            },
        }
    }

    /// Writes `bytes` at `path`, replacing any file already there.
    pub(crate) fn put_file(&mut self, path: String, bytes: Vec<u8>)
        requires
            old(self).wf(),
        ensures
            final(self).wf(),
            final(self).assets_dir == old(self).assets_dir,
            final(self).thumbs_dir == old(self).thumbs_dir,
            final(self).entries() == put_model(old(self).entries(), path@, bytes@),
            lookup(final(self).entries(), path@) == Some(bytes@),
            forall|q: Seq<char>|
                q != path@ ==> lookup(final(self).entries(), q) == lookup(
                    old(self).entries(),
                    q,
                ),
    {
        let ghost old_entries = self.entries();
        match self.find_index(path.as_str()) {
            Some(i) => {
                let f = StoredFile { path, bytes };
                self.files.remove(i);
                self.files.insert(i, f);
                proof {
                    assert(self.files@ =~= old(self).files@.update(i as int, f));
                    assert(self.entries() =~= old_entries.update(
                        i as int,
                        (f.path@, f.bytes@),
                    ));
                    lemma_lookup_update(old_entries, i as int, f.path@, f.bytes@);
                    lemma_put_model_update(old_entries, i as int, f.path@, f.bytes@);
                }
            },
            None => {
                let f = StoredFile { path, bytes };
                self.files.push(f);
                proof {
                    assert(self.entries() =~= old_entries.push((f.path@, f.bytes@)));
                    lemma_lookup_push(old_entries, f.path@, f.bytes@);
                    lemma_put_model_push(old_entries, f.path@, f.bytes@);
                }
            },
        }
    }

    /// Removes the file at `p` if present; reports whether it was there.
    pub(crate) fn remove_file(&mut self, p: &str) -> (existed: bool)
        requires
            old(self).wf(),
        ensures
            final(self).wf(),
            final(self).assets_dir == old(self).assets_dir,
            final(self).thumbs_dir == old(self).thumbs_dir,
            final(self).entries() == drop_model(old(self).entries(), p@),
            existed == (lookup(old(self).entries(), p@) is Some),
            lookup(final(self).entries(), p@) is None,
            forall|q: Seq<char>|
                q != p@ ==> lookup(final(self).entries(), q) == lookup(
                    old(self).entries(),
                    q,
                ),
    {
        let ghost old_entries = self.entries();
        match self.find_index(p) {
            Some(i) => {
                proof {
                    lemma_lookup_at_index(old_entries, i as int, p@);
                }
                self.files.remove(i);
                proof {
                    assert(self.entries() =~= old_entries.remove(i as int));
                    lemma_lookup_remove(old_entries, i as int, p@);
                    lemma_drop_model_remove(old_entries, i as int, p@);
                }
                true
            },
            None => {
                proof {
                    lemma_lookup_absent(old_entries, p@);
                    lemma_drop_model_absent(old_entries, p@);
                }
                false
            },
        }
    }

    /// Computes the content address of `bytes`, derives the extension from
    /// `suggested_name` (falling back to `png`), and writes the bytes under
    /// the assets directory as `<hash>.<ext>`. A repeated store of identical
    /// bytes under the same extension overwrites the same path.
    pub fn store(&mut self, bytes: &Vec<u8>, suggested_name: &str) -> (r: StoreReceipt)
        requires
            old(self).wf(),
        ensures
            final(self).wf(),
            final(self).assets_dir == old(self).assets_dir,
            final(self).thumbs_dir == old(self).thumbs_dir,
            r.address@ == content_address(bytes@),
            r.address@.len() == 64,
            r.path@ == spec_store_path(old(self).assets_dir@, bytes@, suggested_name@),
            final(self).entries() == put_model(old(self).entries(), r.path@, bytes@),
            lookup(final(self).entries(), r.path@) == Some(bytes@),
            forall|q: Seq<char>|
                q != r.path@ ==> lookup(final(self).entries(), q) == lookup(
                    old(self).entries(),
                    q,
                ),
    {
        let digest = sha256_digest(bytes.as_slice());
        proof {
            crate::text::lemma_hex_len(sha256_of(bytes@));
        }
        let address = bytes_to_hex(digest.as_slice());
        let ext = extension_or_png(suggested_name);
        let mut name = address.clone();
        name.append(".");
        name.append(ext.as_str());
        proof {
            reveal_strlit(".");
            assert("."@ =~= seq!['.']);
            assert(name@ =~= canonical_name(
                content_address(bytes@),
                spec_extension(suggested_name@),
            ));
        }
        let path = join_under(self.assets_dir.as_str(), name.as_str());
        let path_copy = path.clone();
        let data = clone_bytes(bytes);
        self.put_file(path, data);
        StoreReceipt { path: path_copy, address }
    }

    /// Removes the canonical file at `p` when present (absence is a no-op,
    /// not an error), then attempts to remove every known thumbnail size
    /// derived from the path's stem, tolerating individual misses. Returns
    /// one observability event per path attempted, in order.
    pub fn remove_asset(&mut self, p: &str) -> (events: Vec<RemoveEvent>)
        requires
            old(self).wf(),
        ensures
            final(self).wf(),
            final(self).assets_dir == old(self).assets_dir,
            final(self).thumbs_dir == old(self).thumbs_dir,
            events@.len() == removal_targets(old(self).thumbs_dir@, p@).len(),
            forall|k: int|
                0 <= k < events@.len() ==> events@[k].path@ == removal_targets(
                    old(self).thumbs_dir@,
                    p@,
                )[k],
            forall|q: Seq<char>|
                removal_targets(old(self).thumbs_dir@, p@).contains(q) ==> lookup(
                    final(self).entries(),
                    q,
                ) is None,
            forall|q: Seq<char>|
                !removal_targets(old(self).thumbs_dir@, p@).contains(q) ==> lookup(
                    final(self).entries(),
                    q,
                ) == lookup(old(self).entries(), q),
            events@[0].removed == (lookup(old(self).entries(), p@) is Some),
            forall|k: int|
                0 <= k < events@.len() ==> (events@[k].removed ==> lookup(
                    old(self).entries(),
                    events@[k].path@,
                ) is Some),
    {
        let ghost targets = removal_targets(old(self).thumbs_dir@, p@);
        let mut events: Vec<RemoveEvent> = Vec::new();
        let r0 = self.remove_file(p);
        events.push(RemoveEvent { path: String::from_str(p), removed: r0 });
        let stem = stem_of(p);
        if stem.as_str().unicode_len() > 0 {
            let ghost s1 = self.entries();
            let tn1 = thumb_file_name(stem.as_str(), 128);
            let t1 = join_under(self.thumbs_dir.as_str(), tn1.as_str());
            let r1 = self.remove_file(t1.as_str());
            let ghost s2 = self.entries();
            events.push(RemoveEvent { path: t1, removed: r1 });
            let tn2 = thumb_file_name(stem.as_str(), 256);
            let t2 = join_under(self.thumbs_dir.as_str(), tn2.as_str());
            let r2 = self.remove_file(t2.as_str());
            let ghost s3 = self.entries();
            events.push(RemoveEvent { path: t2, removed: r2 });
            let tn3 = thumb_file_name(stem.as_str(), 512);
            let t3 = join_under(self.thumbs_dir.as_str(), tn3.as_str());
            let r3 = self.remove_file(t3.as_str());
            events.push(RemoveEvent { path: t3, removed: r3 });
            proof {
                assert(targets.len() == 4);
                assert(targets[0] == p@ && targets[1] == t1@ && targets[2] == t2@
                    && targets[3] == t3@);
                assert forall|q: Seq<char>| targets.contains(q) implies lookup(
                    self.entries(),
                    q,
                ) is None by {
                    assert(q == targets[0] || q == targets[1] || q == targets[2] || q
                        == targets[3]);
                }
                assert forall|q: Seq<char>| !targets.contains(q) implies lookup(
                    self.entries(),
                    q,
                ) == lookup(old(self).entries(), q) by {
                    if q == targets[0] {
                        assert(targets.contains(q));
                    }
                    if q == targets[1] {
                        assert(targets.contains(q));
                    }
                    if q == targets[2] {
                        assert(targets.contains(q));
                    }
                    if q == targets[3] {
                        assert(targets.contains(q));
                    }
                    assert(q != targets[0] && q != targets[1] && q != targets[2] && q
                        != targets[3]);
                }
            }
        } else {
            proof {
                assert(targets.len() == 1);
                assert(targets[0] == p@);
                assert forall|q: Seq<char>| targets.contains(q) implies lookup(
                    self.entries(),
                    q,
                ) is None by {
                    assert(q == targets[0]);
                }
                assert forall|q: Seq<char>| !targets.contains(q) implies lookup(
                    self.entries(),
                    q,
                ) == lookup(old(self).entries(), q) by {
                    if q == targets[0] {
                        assert(targets.contains(q));
                    }
                    assert(q != targets[0]);
                }
            }
        }
        events
    }
}

} // verus!
