//! The relational metadata layer: assets, tags and their many-to-many
//! associations, with the identity and referential-integrity rules the
//! schema promises — unique asset paths, unique tag names, association rows
//! that never outlive either endpoint, and cascade deletion.
//!
//! The store keeps its three tables in memory, assets ordered by creation
//! time and tags by name; callers that persist rows mirror the operations.

use vstd::prelude::*;
use crate::error::MediaError;
use crate::text::{lex_lt, str_lex_lt, lemma_lex_irrefl, lemma_lex_total, lemma_lex_trans};
use crate::timestamp::Timestamp;

verus! {

/// One stored media asset row.
#[derive(Debug)]
pub struct Asset {
    pub id: String,
    pub file_path: String,
    pub file_name: String,
    pub file_size: i64,
    pub mime_type: String,
    pub width: Option<i32>,
    pub height: Option<i32>,
    pub created_at: Timestamp,
    pub updated_at: Timestamp,
}

/// One tag row.
#[derive(Debug)]
pub struct Tag {
    pub id: String,
    pub name: String,
    pub color: Option<String>,
    pub created_at: Timestamp,
}

/// One association row, keyed by (asset id, tag id).
#[derive(Debug)]
pub struct AssetTag {
    pub asset_id: String,
    pub tag_id: String,
    pub created_at: Timestamp,
}

/// What a caller supplies to create an asset.
#[derive(Debug)]
pub struct CreateAssetRequest {
    pub file_path: String,
    pub file_name: String,
    pub file_size: i64,
    pub mime_type: String,
    pub width: Option<i32>,
    pub height: Option<i32>,
}

/// What a caller supplies to create a tag.
#[derive(Debug)]
pub struct CreateTagRequest {
    pub name: String,
    pub color: Option<String>,
}

impl Asset {
    /// A field-for-field copy.
    pub fn duplicate(&self) -> (r: Asset)
        ensures
            r == *self,
    {
        Asset {
            id: self.id.clone(),
            file_path: self.file_path.clone(),
            file_name: self.file_name.clone(),
            file_size: self.file_size,
            mime_type: self.mime_type.clone(),
            width: self.width,
            height: self.height,
            created_at: self.created_at,
            updated_at: self.updated_at,
        }
    }
}

impl Tag {
    /// A field-for-field copy.
    pub fn duplicate(&self) -> (r: Tag)
        ensures
            r == *self,
    {
        Tag {
            id: self.id.clone(),
            name: self.name.clone(),
            color: match &self.color {
                Some(c) => Some(c.clone()),
                None => None,
            },
            created_at: self.created_at,
        }
    }
}

impl AssetTag {
    /// A field-for-field copy.
    pub fn duplicate(&self) -> (r: AssetTag)
        ensures
            r == *self,
    {
        AssetTag {
            asset_id: self.asset_id.clone(),
            tag_id: self.tag_id.clone(),
            created_at: self.created_at,
        }
    }
}

/// Whether some asset row carries this id.
pub open spec fn has_asset_id(s: Seq<Asset>, id: Seq<char>) -> bool {
    exists|i: int| 0 <= i < s.len() && s[i].id@ == id
}

/// Whether some asset row carries this storage path.
pub open spec fn has_asset_path(s: Seq<Asset>, p: Seq<char>) -> bool {
    exists|i: int| 0 <= i < s.len() && s[i].file_path@ == p
}

/// Whether some tag row carries this id.
pub open spec fn has_tag_id(s: Seq<Tag>, id: Seq<char>) -> bool {
    exists|i: int| 0 <= i < s.len() && s[i].id@ == id
}

/// Whether some tag row carries this name.
pub open spec fn has_tag_name(s: Seq<Tag>, n: Seq<char>) -> bool {
    exists|i: int| 0 <= i < s.len() && s[i].name@ == n
}

/// Whether an association row for (asset, tag) exists.
pub open spec fn has_link(s: Seq<AssetTag>, a: Seq<char>, t: Seq<char>) -> bool {
    exists|i: int| 0 <= i < s.len() && s[i].asset_id@ == a && s[i].tag_id@ == t
}

/// How many association rows carry the pair (at most one in a well-formed
/// store).
pub open spec fn link_count(s: Seq<AssetTag>, a: Seq<char>, t: Seq<char>) -> int
    decreases s.len(),
{
    if s.len() == 0 {
        0
    } else {
        link_count(s.drop_last(), a, t) + if s.last().asset_id@ == a && s.last().tag_id@
            == t {
            1int
        } else {
            0int
        }
    }
}

/// The association rows satisfying `p`, in their stored order.
pub open spec fn links_keeping(s: Seq<AssetTag>, p: spec_fn(AssetTag) -> bool) -> Seq<
    AssetTag,
>
    decreases s.len(),
{
    if s.len() == 0 {
        s
    } else {
        let rest = links_keeping(s.drop_last(), p);
        if p(s.last()) {
            rest.push(s.last())
        } else {
            rest
        }
    }
}

/// The association rows that survive deleting an asset, in order.
pub open spec fn links_without_asset(s: Seq<AssetTag>, id: Seq<char>) -> Seq<AssetTag> {
    links_keeping(s, |l: AssetTag| l.asset_id@ != id)
}

/// The association rows that survive deleting a tag, in order.
pub open spec fn links_without_tag(s: Seq<AssetTag>, id: Seq<char>) -> Seq<AssetTag> {
    links_keeping(s, |l: AssetTag| l.tag_id@ != id)
}

/// Every kept row satisfies `p` and is one of the original rows.
pub proof fn lemma_links_keeping_member(s: Seq<AssetTag>, p: spec_fn(AssetTag) -> bool, x: int)
    requires
        0 <= x < links_keeping(s, p).len(),
    ensures
        p(links_keeping(s, p)[x]),
        exists|i: int| 0 <= i < s.len() && s[i] == links_keeping(s, p)[x],
    decreases s.len(),
{
    let out = links_keeping(s, p);
    let rest = links_keeping(s.drop_last(), p);
    if s.len() > 0 {
        if p(s.last()) && x == out.len() - 1 {
            assert(s[s.len() - 1] == out[x]);
        } else {
            lemma_links_keeping_member(s.drop_last(), p, x);
            let i = choose|i: int|
                0 <= i < s.drop_last().len() && s.drop_last()[i] == rest[x];
            assert(s[i] == out[x]);
        }
    }
}

/// Two kept rows at distinct positions come from distinct original
/// positions, in the same order.
pub proof fn lemma_links_keeping_pairs(
    s: Seq<AssetTag>,
    p: spec_fn(AssetTag) -> bool,
    x: int,
    y: int,
)
    requires
        0 <= x < y < links_keeping(s, p).len(),
    ensures
        exists|i: int, j: int|
            0 <= i < j < s.len() && s[i] == links_keeping(s, p)[x] && s[j]
                == links_keeping(s, p)[y],
    decreases s.len(),
{
    let out = links_keeping(s, p);
    let rest = links_keeping(s.drop_last(), p);
    if s.len() > 0 {
        if p(s.last()) && y == out.len() - 1 {
            lemma_links_keeping_member(s.drop_last(), p, x);
            let i = choose|i: int|
                0 <= i < s.drop_last().len() && s.drop_last()[i] == rest[x];
            assert(s[i] == out[x] && s[s.len() - 1] == out[y]);
        } else {
            lemma_links_keeping_pairs(s.drop_last(), p, x, y);
            let (i, j) = choose|i: int, j: int|
                0 <= i < j < s.drop_last().len() && s.drop_last()[i] == rest[x]
                    && s.drop_last()[j] == rest[y];
            assert(s[i] == out[x] && s[j] == out[y]);
        }
    }
}

/// Law: deleting an asset removes every association row that referenced it
/// and no other — each surviving row names another asset, and every row of
/// another asset survives, in order. Tags themselves are untouched by the
/// cascade (the delete's own contract keeps the tag table equal).
pub proof fn lemma_delete_asset_cascade(links: Seq<AssetTag>, id: Seq<char>)
    ensures
        forall|k: int|
            0 <= k < links_without_asset(links, id).len()
                ==> (#[trigger] links_without_asset(links, id)[k]).asset_id@ != id,
        forall|k: int|
            0 <= k < links.len() && (#[trigger] links[k]).asset_id@ != id
                ==> links_without_asset(links, id).contains(links[k]),
    decreases links.len(),
{
    if links.len() > 0 {
        lemma_delete_asset_cascade(links.drop_last(), id);
        let out = links_without_asset(links, id);
        let rest = links_without_asset(links.drop_last(), id);
        assert(out == if links.last().asset_id@ != id {
            rest.push(links.last())
        } else {
            rest
        });
        assert forall|k: int|
            0 <= k < links.len() && (#[trigger] links[k]).asset_id@ != id implies
            out.contains(links[k]) by {
            if k < links.len() - 1 {
                assert(links.drop_last()[k] == links[k]);
                assert(rest.contains(links[k]));
                let i = choose|i: int| 0 <= i < rest.len() && rest[i] == links[k];
                assert(out[i] == links[k]);
            } else {
                assert(out[out.len() - 1] == links[k]);
            }
        }
    }
}

/// Law: deleting a tag removes every association row that referenced it and
/// no other — each surviving row names another tag, and every row of another
/// tag survives, in order. Assets themselves are untouched by the cascade.
pub proof fn lemma_delete_tag_cascade(links: Seq<AssetTag>, id: Seq<char>)
    ensures
        forall|k: int|
            0 <= k < links_without_tag(links, id).len()
                ==> (#[trigger] links_without_tag(links, id)[k]).tag_id@ != id,
        forall|k: int|
            0 <= k < links.len() && (#[trigger] links[k]).tag_id@ != id
                ==> links_without_tag(links, id).contains(links[k]),
    decreases links.len(),
{
    if links.len() > 0 {
        lemma_delete_tag_cascade(links.drop_last(), id);
        let out = links_without_tag(links, id);
        let rest = links_without_tag(links.drop_last(), id);
        assert(out == if links.last().tag_id@ != id {
            rest.push(links.last())
        } else {
            rest
        });
        assert forall|k: int|
            0 <= k < links.len() && (#[trigger] links[k]).tag_id@ != id implies
            out.contains(links[k]) by {
            if k < links.len() - 1 {
                assert(links.drop_last()[k] == links[k]);
                assert(rest.contains(links[k]));
                let i = choose|i: int| 0 <= i < rest.len() && rest[i] == links[k];
                assert(out[i] == links[k]);
            } else {
                assert(out[out.len() - 1] == links[k]);
            }
        }
    }
}

/// The pair count is zero exactly when no row carries the pair.
pub proof fn lemma_link_count_zero(s: Seq<AssetTag>, a: Seq<char>, t: Seq<char>)
    ensures
        (link_count(s, a, t) == 0) <==> !has_link(s, a, t),
        link_count(s, a, t) >= 0,
    decreases s.len(),
{
    if s.len() > 0 {
        lemma_link_count_zero(s.drop_last(), a, t);
        assert(has_link(s, a, t) <==> (has_link(s.drop_last(), a, t) || (s.last().asset_id@
            == a && s.last().tag_id@ == t))) by {
            if has_link(s.drop_last(), a, t) {
                let i = choose|i: int|
                    0 <= i < s.drop_last().len() && s.drop_last()[i].asset_id@ == a
                        && s.drop_last()[i].tag_id@ == t;
                assert(s[i].asset_id@ == a && s[i].tag_id@ == t);
            }
            if has_link(s, a, t) {
                let i = choose|i: int|
                    0 <= i < s.len() && s[i].asset_id@ == a && s[i].tag_id@ == t;
                if i < s.len() - 1 {
                    assert(s.drop_last()[i].asset_id@ == a && s.drop_last()[i].tag_id@
                        == t);
                }
            }
        }
    }
}

/// Law: attaching a tag to an asset is idempotent. After one successful
/// attachment the association row exists — so a repeated call is a no-op —
/// and exactly one row carries the pair.
pub proof fn lemma_add_tag_idempotent(links: Seq<AssetTag>, l: AssetTag)
    requires
        !has_link(links, l.asset_id@, l.tag_id@),
    ensures
        has_link(links.push(l), l.asset_id@, l.tag_id@),
        link_count(links.push(l), l.asset_id@, l.tag_id@) == 1,
{
    let ext = links.push(l);
    assert(ext[ext.len() - 1] == l);
    lemma_link_count_zero(links, l.asset_id@, l.tag_id@);
    assert(ext.drop_last() =~= links);
}

/// The tags attached to an asset, in tag-table (name) order.
pub open spec fn tags_linked(
    tags: Seq<Tag>,
    links: Seq<AssetTag>,
    a: Seq<char>,
) -> Seq<Tag>
    decreases tags.len(),
{
    if tags.len() == 0 {
        tags
    } else {
        let rest = tags_linked(tags.drop_last(), links, a);
        if has_link(links, a, tags.last().id@) {
            rest.push(tags.last())
        } else {
            rest
        }
    }
}

/// The offset a listing actually applies: absent or negative means none.
pub open spec fn effective_offset(offset: Option<i32>) -> int {
    match offset {
        None => 0,
        Some(o) => if o < 0 {
            0
        } else {
            o as int
        },
    }
}

/// The limit a listing actually applies: absent means 50, negative no limit.
pub open spec fn effective_limit(limit: Option<i32>) -> int {
    match limit {
        None => 50,
        Some(l) => l as int,
    }
}

/// Relies on `uuid::Uuid::new_v4` and its `Display` form: a randomly
/// generated identifier rendered in the hyphenated form, 36 characters;
/// nothing further is promised of its value.
#[verifier::external_body]
fn new_uuid() -> (r: String)
    ensures
        r@.len() == 36,
{
    uuid::Uuid::new_v4().to_string()
}

/// The metadata store: three tables and their invariants.
pub struct Database {
    pub assets: Vec<Asset>,
    pub tags: Vec<Tag>,
    pub asset_tags: Vec<AssetTag>,
}

impl Database {
    /// The schema's invariants: unique asset ids and paths, assets ordered
    /// by creation time; unique tag ids and names, tags ordered by name;
    /// association rows keyed uniquely by (asset id, tag id), each endpoint
    /// present; every stored instant representable.
    pub open spec fn wf(&self) -> bool {
        &&& forall|i: int, j: int|
            0 <= i < j < self.assets@.len() ==> self.assets@[i].id@ != self.assets@[j].id@
        &&& forall|i: int, j: int|
            0 <= i < j < self.assets@.len() ==> self.assets@[i].file_path@
                != self.assets@[j].file_path@
        &&& forall|i: int, j: int|
            0 <= i < j < self.assets@.len() ==> self.assets@[i].created_at.millis
                <= self.assets@[j].created_at.millis
        &&& forall|i: int, j: int|
            0 <= i < j < self.tags@.len() ==> self.tags@[i].id@ != self.tags@[j].id@
        &&& forall|i: int, j: int|
            0 <= i < j < self.tags@.len() ==> self.tags@[i].name@ != self.tags@[j].name@
        &&& forall|i: int, j: int|
            0 <= i < j < self.tags@.len() ==> lex_lt(
                self.tags@[i].name@,
                self.tags@[j].name@,
            )
        &&& forall|i: int, j: int|
            0 <= i < j < self.asset_tags@.len() ==> !(self.asset_tags@[i].asset_id@
                == self.asset_tags@[j].asset_id@ && self.asset_tags@[i].tag_id@
                == self.asset_tags@[j].tag_id@)
        &&& forall|i: int|
            0 <= i < self.asset_tags@.len() ==> has_asset_id(
                self.assets@,
                #[trigger] self.asset_tags@[i].asset_id@,
            )
        &&& forall|i: int|
            0 <= i < self.asset_tags@.len() ==> has_tag_id(
                self.tags@,
                #[trigger] self.asset_tags@[i].tag_id@,
            )
        &&& forall|i: int|
            0 <= i < self.assets@.len() ==> (#[trigger] self.assets@[i].created_at).wf()
                && self.assets@[i].updated_at.wf()
        &&& forall|i: int|
            0 <= i < self.tags@.len() ==> (#[trigger] self.tags@[i].created_at).wf()
        &&& forall|i: int|
            0 <= i < self.asset_tags@.len() ==> (
            #[trigger] self.asset_tags@[i].created_at).wf()
    }

    /// An empty store: what the schema migration leaves behind.
    pub fn new() -> (r: Database)
        ensures
            r.wf(),
            r.assets@ == Seq::<Asset>::empty(),
            r.tags@ == Seq::<Tag>::empty(),
            r.asset_tags@ == Seq::<AssetTag>::empty(),
    {
        Database { assets: Vec::new(), tags: Vec::new(), asset_tags: Vec::new() }
    }

    /// Index of the asset with this id, if any.
    fn find_asset_by_id(&self, id: &str) -> (r: Option<usize>)
        ensures
            match r {
                Some(i) => i < self.assets@.len() && self.assets@[i as int].id@ == id@,
                None => !has_asset_id(self.assets@, id@),
            },
    {
        let ids = String::from_str(id);
        let n = self.assets.len();
        let mut i: usize = 0;
        while i < n
            invariant
                i <= n,
                n == self.assets@.len(),
                ids@ == id@,
                forall|j: int| 0 <= j < i ==> self.assets@[j].id@ != id@,
            decreases n - i,
        {
            if self.assets[i].id == ids {
                return Some(i);
            }
            i += 1;
        }
        None
    }

    /// Index of the asset stored at this path, if any.
    fn find_asset_by_path(&self, p: &str) -> (r: Option<usize>)
        ensures
            match r {
                Some(i) => i < self.assets@.len() && self.assets@[i as int].file_path@
                    == p@,
                None => !has_asset_path(self.assets@, p@),
            },
    {
        let ps = String::from_str(p);
        let n = self.assets.len();
        let mut i: usize = 0;
        while i < n
            invariant
                i <= n,
                n == self.assets@.len(),
                ps@ == p@,
                forall|j: int| 0 <= j < i ==> self.assets@[j].file_path@ != p@,
            decreases n - i,
        {
            if self.assets[i].file_path == ps {
                return Some(i);
            }
            i += 1;
        }
        None
    }

    /// Index of the tag with this id, if any.
    fn find_tag_by_id(&self, id: &str) -> (r: Option<usize>)
        ensures
            match r {
                Some(i) => i < self.tags@.len() && self.tags@[i as int].id@ == id@,
                None => !has_tag_id(self.tags@, id@),
            },
    {
        let ids = String::from_str(id);
        let n = self.tags.len();
        let mut i: usize = 0;
        while i < n
            invariant
                i <= n,
                n == self.tags@.len(),
                ids@ == id@,
                forall|j: int| 0 <= j < i ==> self.tags@[j].id@ != id@,
            decreases n - i,
        {
            if self.tags[i].id == ids {
                return Some(i);
            }
            i += 1;
        }
        None
    }

    /// Index of the association row for (asset, tag), if any.
    fn find_link(&self, a: &str, t: &str) -> (r: Option<usize>)
        ensures
            match r {
                Some(i) => i < self.asset_tags@.len() && self.asset_tags@[i as int].asset_id@
                    == a@ && self.asset_tags@[i as int].tag_id@ == t@,
                None => !has_link(self.asset_tags@, a@, t@),
            },
    {
        let as_ = String::from_str(a);
        let ts = String::from_str(t);
        let n = self.asset_tags.len();
        let mut i: usize = 0;
        while i < n
            invariant
                i <= n,
                n == self.asset_tags@.len(),
                as_@ == a@,
                ts@ == t@,
                forall|j: int|
                    0 <= j < i ==> !(self.asset_tags@[j].asset_id@ == a@
                        && self.asset_tags@[j].tag_id@ == t@),
            decreases n - i,
        {
            if self.asset_tags[i].asset_id == as_ && self.asset_tags[i].tag_id == ts {
                return Some(i);
            }
            i += 1;
        }
        None
    }

    /// Looks an asset up by id; absence is not an error.
    pub fn get_asset(&self, id: &str) -> (r: Option<Asset>)
        requires
            self.wf(),
        ensures
            r is Some <==> has_asset_id(self.assets@, id@),
            match r {
                Some(a) => a.id@ == id@ && self.assets@.contains(a),
                None => true,
            },
    {
        match self.find_asset_by_id(id) {
            Some(i) => {
                let a = self.assets[i].duplicate();
                proof {
                    assert(self.assets@[i as int].id@ == id@);
                    assert(self.assets@.contains(a));
                }
                Some(a)
            },
            None => None,
        }
    }

    /// Inserts the asset row that `req`, a generated id and an instant
    /// determine. Fails with a constraint violation, leaving every table
    /// unchanged, when the path — or, for a colliding generated id, the id —
    /// is already taken. The row is placed so that assets stay ordered by
    /// creation time, a row created later coming after rows of equal instant.
    pub fn create_asset_at(&mut self, req: CreateAssetRequest, id: String, now: Timestamp)
        -> (r: Result<Asset, MediaError>)
        requires
            old(self).wf(),
            now.wf(),
        ensures
            final(self).wf(),
            final(self).tags@ == old(self).tags@,
            final(self).asset_tags@ == old(self).asset_tags@,
            r is Err <==> has_asset_path(old(self).assets@, req.file_path@)
                || has_asset_id(old(self).assets@, id@),
            r is Err ==> r == Err::<Asset, MediaError>(MediaError::ConstraintViolation)
                && final(self).assets@ == old(self).assets@,
            r matches Ok(a) ==> {
                &&& a.id == id
                &&& a.file_path == req.file_path
                &&& a.file_name == req.file_name
                &&& a.file_size == req.file_size
                &&& a.mime_type == req.mime_type
                &&& a.width == req.width
                &&& a.height == req.height
                &&& a.created_at == now
                &&& a.updated_at == now
                &&& exists|i: int|
                    0 <= i <= old(self).assets@.len() && #[trigger] final(self).assets@
                        == old(self).assets@.insert(i, a) && (forall|j: int|
                        0 <= j < i ==> old(self).assets@[j].created_at.millis
                            <= now.millis) && (forall|j: int|
                        i <= j < old(self).assets@.len()
                            ==> old(self).assets@[j].created_at.millis > now.millis)
            },
    {
        if let Some(_) = self.find_asset_by_path(req.file_path.as_str()) {
            return Err(MediaError::ConstraintViolation);
        }
        if let Some(_) = self.find_asset_by_id(id.as_str()) {
            return Err(MediaError::ConstraintViolation);
        }
        let asset = Asset {
            id,
            file_path: req.file_path,
            file_name: req.file_name,
            file_size: req.file_size,
            mime_type: req.mime_type,
            width: req.width,
            height: req.height,
            created_at: now,
            updated_at: now,
        };
        let copy = asset.duplicate();
        let n = self.assets.len();
        let mut i: usize = 0;
        while i < n && self.assets[i].created_at.millis <= now.millis
            invariant
                i <= n,
                n == self.assets@.len(),
                forall|j: int|
                    0 <= j < i ==> self.assets@[j].created_at.millis <= now.millis,
            decreases n - i,
        {
            i += 1;
        }
        proof {
            assert(forall|j: int|
                i <= j < self.assets@.len() ==> self.assets@[j].created_at.millis
                    > now.millis) by {
                if i < self.assets@.len() {
                    assert(self.assets@[i as int].created_at.millis > now.millis);
                }
            }
        }
        let ghost pre = self.assets@;
        self.assets.insert(i, asset);
        proof {
            assert(final(self).assets@ == pre.insert(i as int, asset));
            assert forall|x: int, y: int|
                0 <= x < y < self.assets@.len() implies self.assets@[x].id@
                != self.assets@[y].id@ && self.assets@[x].file_path@
                != self.assets@[y].file_path@ && self.assets@[x].created_at.millis
                <= self.assets@[y].created_at.millis by {
                assert(forall|k: int|
                    0 <= k < i ==> self.assets@[k] == pre[k]);
                assert(self.assets@[i as int] == asset);
                assert(forall|k: int|
                    i < k < self.assets@.len() ==> self.assets@[k] == pre[k - 1]);
            }
            assert forall|k: int|
                0 <= k < self.asset_tags@.len() implies has_asset_id(
                self.assets@,
                #[trigger] self.asset_tags@[k].asset_id@,
            ) by {
                let aid = self.asset_tags@[k].asset_id@;
                assert(has_asset_id(pre, aid));
                let w = choose|j: int| 0 <= j < pre.len() && pre[j].id@ == aid;
                if w < i {
                    assert(self.assets@[w].id@ == aid);
                } else {
                    assert(self.assets@[w + 1].id@ == aid);
                }
            }
        }
        Ok(copy)
    }

    /// Creates an asset row from `req` with a freshly generated identifier
    /// and the current instant as both timestamps. Fails with a constraint
    /// violation, leaving every table unchanged, when the path is already
    /// taken (or, for a colliding generated id, the id).
    pub fn create_asset(&mut self, req: CreateAssetRequest) -> (r: Result<
        Asset,
        MediaError,
    >)
        requires
            old(self).wf(),
        ensures
            final(self).wf(),
            final(self).tags@ == old(self).tags@,
            final(self).asset_tags@ == old(self).asset_tags@,
            has_asset_path(old(self).assets@, req.file_path@) ==> r == Err::<
                Asset,
                MediaError,
            >(MediaError::ConstraintViolation),
            r is Err ==> r == Err::<Asset, MediaError>(MediaError::ConstraintViolation)
                && final(self).assets@ == old(self).assets@,
            r matches Ok(a) ==> {
                &&& !has_asset_path(old(self).assets@, req.file_path@)
                &&& a.file_path == req.file_path
                &&& a.file_name == req.file_name
                &&& a.file_size == req.file_size
                &&& a.mime_type == req.mime_type
                &&& a.width == req.width
                &&& a.height == req.height
                &&& a.created_at == a.updated_at
                &&& a.created_at.wf()
                &&& exists|i: int|
                    0 <= i <= old(self).assets@.len() && #[trigger] final(self).assets@
                        == old(self).assets@.insert(i, a)
            },
    {
        let id = new_uuid();
        let now = Timestamp::now();
        self.create_asset_at(req, id, now)
    }

    /// Rebuilds the association table, keeping the rows that do not carry
    /// `asset_id` equal to `id` (when `by_asset` is set) or `tag_id` equal
    /// to `id` (otherwise).
    fn retain_links(&mut self, id: &str, by_asset: bool)
        ensures
            final(self).assets@ == old(self).assets@,
            final(self).tags@ == old(self).tags@,
            final(self).asset_tags@ == if by_asset {
                links_without_asset(old(self).asset_tags@, id@)
            } else {
                links_without_tag(old(self).asset_tags@, id@)
            },
    {
        let ghost pre = self.asset_tags@;
        let ghost p: spec_fn(AssetTag) -> bool = if by_asset {
            |l: AssetTag| l.asset_id@ != id@
        } else {
            |l: AssetTag| l.tag_id@ != id@
        };
        let ids = String::from_str(id);
        let n = self.asset_tags.len();
        let mut kept: Vec<AssetTag> = Vec::new();
        let mut i: usize = 0;
        proof {
            assert(pre.subrange(0, 0) =~= Seq::<AssetTag>::empty());
        }
        while i < n
            invariant
                i <= n,
                n == pre.len(),
                pre == self.asset_tags@,
                ids@ == id@,
                p == (if by_asset {
                    |l: AssetTag| l.asset_id@ != id@
                } else {
                    |l: AssetTag| l.tag_id@ != id@
                }),
                kept@ == links_keeping(pre.subrange(0, i as int), p),
            decreases n - i,
        {
            let keep = if by_asset {
                !(self.asset_tags[i].asset_id == ids)
            } else {
                !(self.asset_tags[i].tag_id == ids)
            };
            if keep {
                let l = self.asset_tags[i].duplicate();
                kept.push(l);
            }
            proof {
                let prefix = pre.subrange(0, i + 1);
                assert(prefix.drop_last() =~= pre.subrange(0, i as int));
                assert(prefix.last() == pre[i as int]);
            }
            i += 1;
        }
        proof {
            assert(pre.subrange(0, n as int) =~= pre);
        }
        self.asset_tags = kept;
    }

    /// Proves the association-table invariants hold again after a rebuild:
    /// the kept rows satisfy the keeping predicate, still have pairwise
    /// distinct keys, and each is one of the original rows.
    proof fn lemma_retained_links_wf(
        pre: Seq<AssetTag>,
        out: Seq<AssetTag>,
        p: spec_fn(AssetTag) -> bool,
    )
        requires
            out == links_keeping(pre, p),
            forall|i: int, j: int|
                0 <= i < j < pre.len() ==> !(pre[i].asset_id@ == pre[j].asset_id@
                    && pre[i].tag_id@ == pre[j].tag_id@),
        ensures
            forall|x: int, y: int|
                0 <= x < y < out.len() ==> !(out[x].asset_id@ == out[y].asset_id@
                    && out[x].tag_id@ == out[y].tag_id@),
            forall|x: int|
                0 <= x < out.len() ==> p(#[trigger] out[x]) && pre.contains(out[x]),
    {
        assert forall|x: int, y: int|
            0 <= x < y < out.len() implies !(out[x].asset_id@ == out[y].asset_id@
            && out[x].tag_id@ == out[y].tag_id@) by {
            lemma_links_keeping_pairs(pre, p, x, y);
            let (i, j) = choose|i: int, j: int|
                0 <= i < j < pre.len() && pre[i] == links_keeping(pre, p)[x] && pre[j]
                    == links_keeping(pre, p)[y];
            assert(!(pre[i].asset_id@ == pre[j].asset_id@ && pre[i].tag_id@
                == pre[j].tag_id@));
        }
        assert forall|x: int| 0 <= x < out.len() implies p(#[trigger] out[x])
            && pre.contains(out[x]) by {
            lemma_links_keeping_member(pre, p, x);
            let i = choose|i: int| 0 <= i < pre.len() && pre[i] == links_keeping(pre, p)[x];
            assert(pre[i] == out[x]);
        }
    }

    /// Deletes the asset with this id, reporting whether it existed, and
    /// cascades: every association row referencing it goes too. Unrelated
    /// assets, tags and associations are untouched.
    pub fn delete_asset(&mut self, id: &str) -> (r: bool)
        requires
            old(self).wf(),
        ensures
            final(self).wf(),
            final(self).tags@ == old(self).tags@,
            r == has_asset_id(old(self).assets@, id@),
            r ==> exists|i: int|
                0 <= i < old(self).assets@.len() && old(self).assets@[i].id@ == id@
                    && #[trigger] final(self).assets@ == old(self).assets@.remove(i),
            !r ==> final(self).assets@ == old(self).assets@,
            final(self).asset_tags@ == links_without_asset(old(self).asset_tags@, id@),
    {
        let ghost pre_assets = self.assets@;
        let ghost pre_links = self.asset_tags@;
        let found = match self.find_asset_by_id(id) {
            Some(i) => {
                self.assets.remove(i);
                proof {
                    assert(self.assets@ == pre_assets.remove(i as int));
                }
                true
            },
            None => false,
        };
        let ghost mid_assets = self.assets@;
        self.retain_links(id, true);
        proof {
            let p: spec_fn(AssetTag) -> bool = |l: AssetTag| l.asset_id@ != id@;
            let out = self.asset_tags@;
            Self::lemma_retained_links_wf(pre_links, out, p);
            assert forall|x: int|
                0 <= x < out.len() implies has_asset_id(
                mid_assets,
                #[trigger] out[x].asset_id@,
            ) && has_tag_id(self.tags@, out[x].tag_id@) && out[x].created_at.wf() by {
                let i = choose|i: int| 0 <= i < pre_links.len() && pre_links[i] == out[x];
                assert(pre_links[i].created_at.wf());
                assert(has_asset_id(pre_assets, out[x].asset_id@));
                assert(has_tag_id(self.tags@, out[x].tag_id@));
                let w = choose|w: int|
                    0 <= w < pre_assets.len() && pre_assets[w].id@ == out[x].asset_id@;
                if found {
                    let d = choose|d: int|
                        0 <= d < pre_assets.len() && pre_assets[d].id@ == id@
                            && mid_assets == pre_assets.remove(d);
                    if w < d {
                        assert(mid_assets[w].id@ == out[x].asset_id@);
                    } else {
                        assert(w != d);
                        assert(mid_assets[w - 1].id@ == out[x].asset_id@);
                    }
                }
            }
        }
        found
    }

    /// Deletes the tag with this id, reporting whether it existed, and
    /// cascades: every association row referencing it goes too. Unrelated
    /// tags, assets and associations are untouched.
    pub fn delete_tag(&mut self, id: &str) -> (r: bool)
        requires
            old(self).wf(),
        ensures
            final(self).wf(),
            final(self).assets@ == old(self).assets@,
            r == has_tag_id(old(self).tags@, id@),
            r ==> exists|i: int|
                0 <= i < old(self).tags@.len() && old(self).tags@[i].id@ == id@
                    && #[trigger] final(self).tags@ == old(self).tags@.remove(i),
            !r ==> final(self).tags@ == old(self).tags@,
            final(self).asset_tags@ == links_without_tag(old(self).asset_tags@, id@),
    {
        let ghost pre_tags = self.tags@;
        let ghost pre_links = self.asset_tags@;
        let found = match self.find_tag_by_id(id) {
            Some(i) => {
                self.tags.remove(i);
                proof {
                    assert(self.tags@ == pre_tags.remove(i as int));
                }
                true
            },
            None => false,
        };
        let ghost mid_tags = self.tags@;
        self.retain_links(id, false);
        proof {
            let p: spec_fn(AssetTag) -> bool = |l: AssetTag| l.tag_id@ != id@;
            let out = self.asset_tags@;
            Self::lemma_retained_links_wf(pre_links, out, p);
            assert forall|x: int|
                0 <= x < out.len() implies has_tag_id(
                mid_tags,
                #[trigger] out[x].tag_id@,
            ) && has_asset_id(self.assets@, out[x].asset_id@) && out[x].created_at.wf() by {
                let i = choose|i: int| 0 <= i < pre_links.len() && pre_links[i] == out[x];
                assert(pre_links[i].created_at.wf());
                assert(has_tag_id(pre_tags, out[x].tag_id@));
                assert(has_asset_id(self.assets@, out[x].asset_id@));
                let w = choose|w: int|
                    0 <= w < pre_tags.len() && pre_tags[w].id@ == out[x].tag_id@;
                if found {
                    let d = choose|d: int|
                        0 <= d < pre_tags.len() && pre_tags[d].id@ == id@ && mid_tags
                            == pre_tags.remove(d);
                    if w < d {
                        assert(mid_tags[w].id@ == out[x].tag_id@);
                    } else {
                        assert(w != d);
                        assert(mid_tags[w - 1].id@ == out[x].tag_id@);
                    }
                }
            }
        }
        found
    }

    /// Inserts the tag row that `req`, a generated id and an instant
    /// determine, keeping tags ordered by name. Fails with a constraint
    /// violation, leaving every table unchanged, when the name — or, for a
    /// colliding generated id, the id — is already taken.
    pub fn create_tag_at(&mut self, req: CreateTagRequest, id: String, now: Timestamp)
        -> (r: Result<Tag, MediaError>)
        requires
            old(self).wf(),
            now.wf(),
        ensures
            final(self).wf(),
            final(self).assets@ == old(self).assets@,
            final(self).asset_tags@ == old(self).asset_tags@,
            r is Err <==> has_tag_name(old(self).tags@, req.name@) || has_tag_id(
                old(self).tags@,
                id@,
            ),
            r is Err ==> r == Err::<Tag, MediaError>(MediaError::ConstraintViolation)
                && final(self).tags@ == old(self).tags@,
            r matches Ok(t) ==> {
                &&& t.id == id
                &&& t.name == req.name
                &&& t.color == req.color
                &&& t.created_at == now
                &&& exists|i: int|
                    0 <= i <= old(self).tags@.len() && #[trigger] final(self).tags@
                        == old(self).tags@.insert(i, t) && (forall|j: int|
                        0 <= j < i ==> lex_lt(old(self).tags@[j].name@, req.name@))
                        && (forall|j: int|
                        i <= j < old(self).tags@.len() ==> lex_lt(
                            req.name@,
                            old(self).tags@[j].name@,
                        ))
            },
    {
        if let Some(_) = self.find_tag_by_id(id.as_str()) {
            proof {
                assert(has_tag_id(self.tags@, id@));
            }
            return Err(MediaError::ConstraintViolation);
        }
        let n = self.tags.len();
        let mut i: usize = 0;
        while i < n && str_lex_lt(self.tags[i].name.as_str(), req.name.as_str())
            invariant
                i <= n,
                n == self.tags@.len(),
                forall|j: int| 0 <= j < i ==> lex_lt(self.tags@[j].name@, req.name@),
            decreases n - i,
        {
            i += 1;
        }
        if i < n && self.tags[i].name == req.name {
            proof {
                assert(has_tag_name(self.tags@, req.name@));
            }
            return Err(MediaError::ConstraintViolation);
        }
        proof {
            if i < self.tags@.len() {
                lemma_lex_total(req.name@, self.tags@[i as int].name@);
            }
            assert forall|j: int|
                i <= j < self.tags@.len() implies lex_lt(
                req.name@,
                #[trigger] self.tags@[j].name@,
            ) by {
                if j > i {
                    lemma_lex_trans(
                        req.name@,
                        self.tags@[i as int].name@,
                        self.tags@[j].name@,
                    );
                }
            }
            assert forall|j: int|
                0 <= j < self.tags@.len() implies self.tags@[j].name@ != req.name@ by {
                lemma_lex_irrefl(self.tags@[j].name@);
            }
            if has_tag_name(self.tags@, req.name@) {
                let w = choose|w: int|
                    0 <= w < self.tags@.len() && self.tags@[w].name@ == req.name@;
                assert(false);
            }
        }
        let tag = Tag { id, name: req.name, color: req.color, created_at: now };
        let copy = tag.duplicate();
        let ghost pre = self.tags@;
        self.tags.insert(i, tag);
        proof {
            assert(final(self).tags@ == pre.insert(i as int, tag));
            assert forall|x: int, y: int|
                0 <= x < y < self.tags@.len() implies self.tags@[x].id@
                != self.tags@[y].id@ && self.tags@[x].name@ != self.tags@[y].name@
                && lex_lt(self.tags@[x].name@, self.tags@[y].name@) by {
                assert(forall|k: int| 0 <= k < i ==> self.tags@[k] == pre[k]);
                assert(self.tags@[i as int] == tag);
                assert(forall|k: int|
                    i < k < self.tags@.len() ==> self.tags@[k] == pre[k - 1]);
                if x != i && y != i {
                    let px: int = if x < i {
                        x
                    } else {
                        x - 1
                    };
                    let py: int = if y < i {
                        y
                    } else {
                        y - 1
                    };
                    lemma_lex_irrefl(pre[px].name@);
                } else {
                    lemma_lex_irrefl(tag.name@);
                }
            }
            assert forall|k: int|
                0 <= k < self.asset_tags@.len() implies has_tag_id(
                self.tags@,
                #[trigger] self.asset_tags@[k].tag_id@,
            ) by {
                let tid = self.asset_tags@[k].tag_id@;
                assert(has_tag_id(pre, tid));
                let w = choose|j: int| 0 <= j < pre.len() && pre[j].id@ == tid;
                if w < i {
                    assert(self.tags@[w].id@ == tid);
                } else {
                    assert(self.tags@[w + 1].id@ == tid);
                }
            }
        }
        Ok(copy)
    }

    /// Creates a tag from `req` with a freshly generated identifier and the
    /// current instant. Fails with a constraint violation, leaving every
    /// table unchanged, when the name is already taken (or, for a colliding
    /// generated id, the id).
    pub fn create_tag(&mut self, req: CreateTagRequest) -> (r: Result<Tag, MediaError>)
        requires
            old(self).wf(),
        ensures
            final(self).wf(),
            final(self).assets@ == old(self).assets@,
            final(self).asset_tags@ == old(self).asset_tags@,
            has_tag_name(old(self).tags@, req.name@) ==> r == Err::<Tag, MediaError>(
                MediaError::ConstraintViolation,
            ),
            r is Err ==> r == Err::<Tag, MediaError>(MediaError::ConstraintViolation)
                && final(self).tags@ == old(self).tags@,
            r matches Ok(t) ==> {
                &&& !has_tag_name(old(self).tags@, req.name@)
                &&& t.name == req.name
                &&& t.color == req.color
                &&& t.created_at.wf()
                &&& exists|i: int|
                    0 <= i <= old(self).tags@.len() && #[trigger] final(self).tags@
                        == old(self).tags@.insert(i, t)
            },
    {
        let id = new_uuid();
        let now = Timestamp::now();
        self.create_tag_at(req, id, now)
    }

    /// Attaches a tag to an asset. Attaching an already-attached tag
    /// succeeds silently and changes nothing; a missing endpoint is
    /// reported as not found.
    pub fn add_tag_to_asset(&mut self, asset_id: &str, tag_id: &str) -> (r: Result<
        (),
        MediaError,
    >)
        requires
            old(self).wf(),
        ensures
            final(self).wf(),
            final(self).assets@ == old(self).assets@,
            final(self).tags@ == old(self).tags@,
            r is Ok <==> has_asset_id(old(self).assets@, asset_id@) && has_tag_id(
                old(self).tags@,
                tag_id@,
            ),
            r is Err ==> r == Err::<(), MediaError>(MediaError::NotFound)
                && final(self).asset_tags@ == old(self).asset_tags@,
            r is Ok && has_link(old(self).asset_tags@, asset_id@, tag_id@)
                ==> final(self).asset_tags@ == old(self).asset_tags@,
            r is Ok && !has_link(old(self).asset_tags@, asset_id@, tag_id@) ==> {
                &&& final(self).asset_tags@ == old(self).asset_tags@.push(
                    final(self).asset_tags@.last(),
                )
                &&& final(self).asset_tags@.last().asset_id@ == asset_id@
                &&& final(self).asset_tags@.last().tag_id@ == tag_id@
            },
    {
        let asset_there = match self.find_asset_by_id(asset_id) {
            Some(_) => true,
            None => false,
        };
        let tag_there = match self.find_tag_by_id(tag_id) {
            Some(_) => true,
            None => false,
        };
        if !asset_there || !tag_there {
            return Err(MediaError::NotFound);
        }
        match self.find_link(asset_id, tag_id) {
            Some(_) => {
                proof {
                    let i = choose|i: int|
                        0 <= i < self.asset_tags@.len() && self.asset_tags@[i].asset_id@
                            == asset_id@ && self.asset_tags@[i].tag_id@ == tag_id@;
                    assert(has_link(self.asset_tags@, asset_id@, tag_id@));
                }
                Ok(())
            },
            None => {
                let ghost pre = self.asset_tags@;
                let now = Timestamp::now();
                let l = AssetTag {
                    asset_id: String::from_str(asset_id),
                    tag_id: String::from_str(tag_id),
                    created_at: now,
                };
                self.asset_tags.push(l);
                proof {
                    assert(self.asset_tags@.last() == l);
                    assert forall|x: int, y: int|
                        0 <= x < y < self.asset_tags@.len() implies !(
                    self.asset_tags@[x].asset_id@ == self.asset_tags@[y].asset_id@
                        && self.asset_tags@[x].tag_id@
                        == self.asset_tags@[y].tag_id@) by {
                        if y == self.asset_tags@.len() - 1 {
                            if pre[x].asset_id@ == asset_id@ && pre[x].tag_id@
                                == tag_id@ {
                                assert(has_link(pre, asset_id@, tag_id@));
                            }
                        }
                    }
                }
                Ok(())
            },
        }
    }

    /// Detaches a tag from an asset, reporting whether an association row
    /// was there to remove.
    pub fn remove_tag_from_asset(&mut self, asset_id: &str, tag_id: &str) -> (r: bool)
        requires
            old(self).wf(),
        ensures
            final(self).wf(),
            final(self).assets@ == old(self).assets@,
            final(self).tags@ == old(self).tags@,
            r == has_link(old(self).asset_tags@, asset_id@, tag_id@),
            r ==> exists|i: int|
                0 <= i < old(self).asset_tags@.len()
                    && old(self).asset_tags@[i].asset_id@ == asset_id@
                    && old(self).asset_tags@[i].tag_id@ == tag_id@
                    && #[trigger] final(self).asset_tags@
                    == old(self).asset_tags@.remove(i),
            !r ==> final(self).asset_tags@ == old(self).asset_tags@,
    {
        let ghost pre = self.asset_tags@;
        match self.find_link(asset_id, tag_id) {
            Some(i) => {
                proof {
                    assert(has_link(pre, asset_id@, tag_id@));
                }
                self.asset_tags.remove(i);
                proof {
                    let out = self.asset_tags@;
                    assert(out == pre.remove(i as int));
                    assert(forall|k: int| 0 <= k < i ==> out[k] == pre[k]);
                    assert(forall|k: int|
                        i <= k < out.len() ==> out[k] == pre[k + 1]);
                }
                true
            },
            None => false,
        }
    }

    /// The tags attached to an asset, ordered by name ascending.
    pub fn get_asset_tags(&self, asset_id: &str) -> (r: Vec<Tag>)
        requires
            self.wf(),
        ensures
            r@ == tags_linked(self.tags@, self.asset_tags@, asset_id@),
    {
        let n = self.tags.len();
        let mut out: Vec<Tag> = Vec::new();
        let mut i: usize = 0;
        proof {
            assert(self.tags@.subrange(0, 0) =~= Seq::<Tag>::empty());
        }
        while i < n
            invariant
                i <= n,
                n == self.tags@.len(),
                self.wf(),
                out@ == tags_linked(
                    self.tags@.subrange(0, i as int),
                    self.asset_tags@,
                    asset_id@,
                ),
            decreases n - i,
        {
            match self.find_link(asset_id, self.tags[i].id.as_str()) {
                Some(j) => {
                    proof {
                        assert(has_link(
                            self.asset_tags@,
                            asset_id@,
                            self.tags@[i as int].id@,
                        ));
                    }
                    out.push(self.tags[i].duplicate());
                },
                None => {},
            }
            proof {
                let prefix = self.tags@.subrange(0, i + 1);
                assert(prefix.drop_last() =~= self.tags@.subrange(0, i as int));
                assert(prefix.last() == self.tags@[i as int]);
            }
            i += 1;
        }
        proof {
            assert(self.tags@.subrange(0, n as int) =~= self.tags@);
        }
        out
    }

    /// A page of assets ordered by creation time descending, newest first.
    /// `limit` defaults to 50; a negative limit means no limit, and a
    /// negative offset means none, as the underlying engine treats them.
    pub fn list_assets(&self, limit: Option<i32>, offset: Option<i32>) -> (r: Vec<Asset>)
        requires
            self.wf(),
        ensures
            ({
                let rev = self.assets@.reverse();
                let off = effective_offset(offset);
                let lim = effective_limit(limit);
                let avail: int = if off >= rev.len() {
                    0
                } else {
                    rev.len() - off
                };
                let cnt: int = if lim < 0 || lim > avail {
                    avail
                } else {
                    lim
                };
                &&& r@.len() == cnt
                &&& forall|k: int| 0 <= k < cnt ==> r@[k] == rev[off + k]
            }),
    {
        let n = self.assets.len();
        let off: usize = match offset {
            Some(o) => if o < 0 {
                0
            } else {
                o as usize
            },
            None => 0,
        };
        let unlimited = match limit {
            Some(l) => l < 0,
            None => false,
        };
        let lim: usize = match limit {
            Some(l) => if l < 0 {
                0
            } else {
                l as usize
            },
            None => 50,
        };
        let avail: usize = if off >= n {
            0
        } else {
            n - off
        };
        let cnt: usize = if unlimited || lim > avail {
            avail
        } else {
            lim
        };
        let mut out: Vec<Asset> = Vec::new();
        let mut k: usize = 0;
        while k < cnt
            invariant
                k <= cnt,
                cnt <= avail,
                avail <= n,
                off >= n ==> avail == 0,
                off < n ==> avail == n - off,
                n == self.assets@.len(),
                out@.len() == k,
                forall|j: int|
                    0 <= j < k ==> out@[j] == self.assets@.reverse()[off + j],
            decreases cnt - k,
        {
            let idx = n - 1 - off - k;
            out.push(self.assets[idx].duplicate());
            proof {
                assert(self.assets@.reverse()[off + k] == self.assets@[n - 1 - off
                    - k]);
            }
            k += 1;
        }
        out
    }

    /// Every tag, ordered by name ascending.
    pub fn list_tags(&self) -> (r: Vec<Tag>)
        requires
            self.wf(),
        ensures
            r@ == self.tags@,
    {
        let n = self.tags.len();
        let mut out: Vec<Tag> = Vec::new();
        let mut i: usize = 0;
        while i < n
            invariant
                i <= n,
                n == self.tags@.len(),
                out@ == self.tags@.subrange(0, i as int),
            decreases n - i,
        {
            out.push(self.tags[i].duplicate());
            proof {
                assert(self.tags@.subrange(0, i + 1) =~= self.tags@.subrange(
                    0,
                    i as int,
                ).push(self.tags@[i as int]));
            }
            i += 1;
        }
        proof {
            assert(self.tags@.subrange(0, n as int) =~= self.tags@);
        }
        out
    }
}

} // verus!
