//! Path and file-name rules of the store: the final path segment, file
//! extensions with the safe fallback, stems, and the canonical file and
//! thumbnail naming scheme.

use vstd::prelude::*;
use crate::text::{spec_rfind, spec_dec_digits, rfind_char, push_dec_u64, lemma_rfind_bounds};

verus! {

/// The part of `p` after its last `/`; all of `p` when it has none.
pub open spec fn last_component(p: Seq<char>) -> Seq<char> {
    match spec_rfind(p, '/') {
        None => p,
        Some(i) => p.skip(i + 1),
    }
}

/// The extension that names the stored file's format: what follows the last
/// `.` of the final path segment, or `png` as the safe fallback when the
/// segment has no usable extension.
pub open spec fn spec_extension(name: Seq<char>) -> Seq<char> {
    let comp = last_component(name);
    match spec_rfind(comp, '.') {
        Some(i) => if i > 0 {
            comp.skip(i + 1)
        } else {
            "png"@
        },
        None => "png"@,
    }
}

/// The stem of the final path segment: what precedes its last `.`, or the
/// whole segment when the dot is absent or leading.
pub open spec fn spec_stem(p: Seq<char>) -> Seq<char> {
    let comp = last_component(p);
    match spec_rfind(comp, '.') {
        Some(i) => if i > 0 {
            comp.take(i)
        } else {
            comp
        },
        None => comp,
    }
}

/// `dir`/`name`.
pub open spec fn path_join(dir: Seq<char>, name: Seq<char>) -> Seq<char> {
    dir + seq!['/'] + name
}

/// The canonical file name of content with address `hash` and extension `ext`.
pub open spec fn canonical_name(hash: Seq<char>, ext: Seq<char>) -> Seq<char> {
    hash + seq!['.'] + ext
}

/// The thumbnail file name derived from a stem for one edge length.
pub open spec fn thumb_name(stem: Seq<char>, size: int) -> Seq<char> {
    stem + seq!['_'] + spec_dec_digits(size) + ".webp"@
}

/// An extension never holds a path separator or a dot: it follows the last
/// dot of the final segment, and the fallback is clean.
pub proof fn lemma_extension_clean(name: Seq<char>)
    ensures
        forall|i: int|
            0 <= i < spec_extension(name).len() ==> #[trigger] spec_extension(name)[i]
                != '/' && spec_extension(name)[i] != '.',
{
    let comp = last_component(name);
    lemma_rfind_bounds(name, '/');
    assert(forall|i: int| 0 <= i < comp.len() ==> #[trigger] comp[i] != '/') by {
        if spec_rfind(name, '/') is Some {
            let r = spec_rfind(name, '/')->0;
            assert(forall|i: int|
                0 <= i < comp.len() ==> comp[i] == name[r + 1 + i]);
        }
    }
    lemma_rfind_bounds(comp, '.');
    match spec_rfind(comp, '.') {
        Some(d) => {
            if d > 0 {
                assert(forall|i: int|
                    0 <= i < spec_extension(name).len() ==> spec_extension(name)[i]
                        == comp[d + 1 + i]);
            } else {
                reveal_strlit("png");
                assert(spec_extension(name) =~= "png"@);
            }
        },
        None => {
            reveal_strlit("png");
            assert(spec_extension(name) =~= "png"@);
        },
    }
}

/// Extracts the final path segment.
pub fn last_component_of(p: &str) -> (r: String)
    ensures
        r@ == last_component(p@),
{
    proof {
        lemma_rfind_bounds(p@, '/');
    }
    let n = p.unicode_len();
    match rfind_char(p, '/') {
        None => String::from_str(p),
        Some(i) => String::from_str(p.substring_char(i + 1, n)),
    }
}

/// Extracts the extension of the final path segment, falling back to `png`.
pub fn extension_or_png(name: &str) -> (r: String)
    ensures
        r@ == spec_extension(name@),
{
    let comp = last_component_of(name);
    let comp_str = comp.as_str();
    let n = comp_str.unicode_len();
    proof {
        lemma_rfind_bounds(comp_str@, '.');
    }
    match rfind_char(comp_str, '.') {
        Some(i) if i > 0 => String::from_str(comp_str.substring_char(i + 1, n)),
        _ => String::from_str("png"),
    }
}

/// Extracts the stem of the final path segment.
pub fn stem_of(p: &str) -> (r: String)
    ensures
        r@ == spec_stem(p@),
{
    let comp = last_component_of(p);
    let comp_str = comp.as_str();
    proof {
        lemma_rfind_bounds(comp_str@, '.');
    }
    match rfind_char(comp_str, '.') {
        Some(i) if i > 0 => String::from_str(comp_str.substring_char(0, i)),
        _ => String::from_str(comp_str),
    }
}

/// Joins a directory and a file name with `/`.
pub fn join_under(dir: &str, name: &str) -> (r: String)
    ensures
        r@ == path_join(dir@, name@),
{
    let mut s = String::from_str(dir);
    s.append("/");
    s.append(name);
    proof {
        reveal_strlit("/");
        assert("/"@ =~= seq!['/']);
        assert(dir@ + "/"@ + name@ =~= dir@ + seq!['/'] + name@);
    }
    s
}

/// Builds `<stem>_<size>.webp`.
pub fn thumb_file_name(stem: &str, size: u32) -> (r: String)
    ensures
        r@ == thumb_name(stem@, size as int),
{
    let mut s = String::from_str(stem);
    s.append("_");
    push_dec_u64(&mut s, size as u64);
    s.append(".webp");
    proof {
        reveal_strlit("_");
        assert("_"@ =~= seq!['_']);
        assert(stem@ + "_"@ + spec_dec_digits(size as int) + ".webp"@ =~= thumb_name(
            stem@,
            size as int,
        ));
    }
    s
}

} // verus!
