//! Path strings as the index stores them: prefix stripping, parent and file
//! name, extensions, and the media allow-lists.

use vstd::prelude::*;
use crate::text::{has_prefix, last_index, lemma_last_index_bounds, lower_of, lowercase, rfind, starts_with, str_eq, substring};

verus! {

/// The Windows extended-length prefix `\\?\`.
pub open spec fn long_prefix() -> Seq<char> {
    seq!['\\', '\\', '?', '\\']
}

/// A path with the extended-length prefix removed, if it had one.
pub open spec fn clean_spec(p: Seq<char>) -> Seq<char> {
    if has_prefix(p, long_prefix()) {
        p.subrange(4, p.len() as int)
    } else {
        p
    }
}

/// The position of the last separator of either kind, or -1.
pub open spec fn last_sep(p: Seq<char>) -> int {
    let a = last_index(p, '/');
    let b = last_index(p, '\\');
    if a >= b { a } else { b }
}

/// Everything before the last separator; empty when there is none.
pub open spec fn parent_spec(p: Seq<char>) -> Seq<char> {
    if last_sep(p) >= 0 {
        p.subrange(0, last_sep(p))
    } else {
        Seq::empty()
    }
}

/// Everything after the last separator of either kind.
pub open spec fn name_spec(p: Seq<char>) -> Seq<char> {
    p.subrange(last_sep(p) + 1, p.len() as int)
}

/// Everything after the last `/` (the whole path when there is none).
pub open spec fn file_name_spec(p: Seq<char>) -> Seq<char> {
    p.subrange(last_index(p, '/') + 1, p.len() as int)
}

/// Everything after the last `.` (the whole path when there is none).
pub open spec fn ext_part(p: Seq<char>) -> Seq<char> {
    p.subrange(last_index(p, '.') + 1, p.len() as int)
}

/// The extensions shown as still images.
pub open spec fn image_ext_spec(e: Seq<char>) -> bool {
    e == "jpg"@ || e == "jpeg"@ || e == "png"@ || e == "gif"@ || e == "bmp"@ || e == "webp"@
        || e == "tiff"@ || e == "tif"@ || e == "avif"@ || e == "ico"@ || e == "svg"@
}

/// The extensions played as video.
pub open spec fn video_ext_spec(e: Seq<char>) -> bool {
    e == "mp4"@ || e == "avi"@ || e == "mov"@ || e == "mkv"@ || e == "webm"@ || e == "flv"@
        || e == "wmv"@ || e == "m4v"@ || e == "3gp"@
}

/// The extensions that the scanner and the watcher index.
pub open spec fn media_ext_spec(e: Seq<char>) -> bool {
    e == "jpg"@ || e == "jpeg"@ || e == "png"@ || e == "gif"@ || e == "bmp"@ || e == "webp"@
        || e == "tiff"@ || e == "tif"@ || e == "heic"@ || e == "heif"@ || e == "ico"@
        || video_ext_spec(e)
}

/// Where the file name begins: after the last `/`, else after the last `\`.
pub open spec fn name_start(p: Seq<char>) -> int {
    if last_index(p, '/') >= 0 {
        last_index(p, '/') + 1
    } else {
        last_index(p, '\\') + 1
    }
}

/// Whether the file name in `p` has an extension from the media list.
pub open spec fn has_media_ext_spec(p: Seq<char>) -> bool {
    let name = p.subrange(name_start(p), p.len() as int);
    last_index(name, '.') >= 0 && media_ext_spec(
        lower_of(name.subrange(last_index(name, '.') + 1, name.len() as int)),
    )
}

/// Strips the extended-length prefix `\\?\` that Windows canonicalization adds.
pub fn clean_path(p: &str) -> (r: String)
    ensures
        r@ == clean_spec(p@),
{
    if starts_with(p, "\\\\?\\") {
        proof {
            reveal_strlit("\\\\?\\");
            assert("\\\\?\\"@ == long_prefix());
        }
        substring(p, 4, p.unicode_len())
    } else {
        proof {
            reveal_strlit("\\\\?\\");
            assert("\\\\?\\"@ == long_prefix());
        }
        String::from_str(p)
    }
}

/// The parent of a path, understanding both `/` and `\` as separators.
pub fn str_parent(p: &str) -> (r: String)
    ensures
        r@ == parent_spec(p@),
{
    proof {
        lemma_last_index_bounds(p@, '/');
        lemma_last_index_bounds(p@, '\\');
    }
    let fwd = rfind(p, '/');
    let back = rfind(p, '\\');
    let sep: Option<usize> = match (fwd, back) {
        (Some(a), Some(b)) => Some(if a >= b { a } else { b }),
        (Some(a), None) => Some(a),
        (None, Some(b)) => Some(b),
        (None, None) => None,
    };
    match sep {
        Some(i) => substring(p, 0, i),
        None => String::new(),
    }
}

/// The file name: what follows the last separator of either kind.
pub fn str_name(p: &str) -> (r: String)
    ensures
        r@ == name_spec(p@),
{
    proof {
        lemma_last_index_bounds(p@, '/');
        lemma_last_index_bounds(p@, '\\');
    }
    let n = p.unicode_len();
    let fwd = rfind(p, '/');
    let back = rfind(p, '\\');
    let start: usize = match (fwd, back) {
        (Some(a), Some(b)) => if a >= b { a + 1 } else { b + 1 },
        (Some(a), None) => a + 1,
        (None, Some(b)) => b + 1,
        (None, None) => 0,
    };
    substring(p, start, n)
}

/// The file name: what follows the last `/`.
pub fn file_name_of(p: &str) -> (r: String)
    ensures
        r@ == file_name_spec(p@),
{
    proof {
        lemma_last_index_bounds(p@, '/');
    }
    let n = p.unicode_len();
    match rfind(p, '/') {
        Some(i) => substring(p, i + 1, n),
        None => substring(p, 0, n),
    }
}

/// The lowercased text after the last `.`; the whole path, lowercased, when it has none.
pub fn ext_of(p: &str) -> (r: String)
    ensures
        r@ == lower_of(ext_part(p@)),
{
    proof {
        lemma_last_index_bounds(p@, '.');
    }
    let n = p.unicode_len();
    let raw = match rfind(p, '.') {
        Some(i) => substring(p, i + 1, n),
        None => substring(p, 0, n),
    };
    lowercase(raw.as_str())
}

/// Whether an already lowercased extension is one of the image extensions.
pub fn is_image_ext(e: &str) -> (r: bool)
    ensures
        r == image_ext_spec(e@),
{
    str_eq(e, "jpg") || str_eq(e, "jpeg") || str_eq(e, "png") || str_eq(e, "gif") || str_eq(e, "bmp")
        || str_eq(e, "webp") || str_eq(e, "tiff") || str_eq(e, "tif") || str_eq(e, "avif")
        || str_eq(e, "ico") || str_eq(e, "svg")
}

/// Whether an already lowercased extension is one of the video extensions.
pub fn is_video_ext(e: &str) -> (r: bool)
    ensures
        r == video_ext_spec(e@),
{
    str_eq(e, "mp4") || str_eq(e, "avi") || str_eq(e, "mov") || str_eq(e, "mkv") || str_eq(e, "webm")
        || str_eq(e, "flv") || str_eq(e, "wmv") || str_eq(e, "m4v") || str_eq(e, "3gp")
}

/// Whether an already lowercased extension is indexed by the scanner.
pub fn is_indexed_ext(e: &str) -> (r: bool)
    ensures
        r == media_ext_spec(e@),
{
    str_eq(e, "jpg") || str_eq(e, "jpeg") || str_eq(e, "png") || str_eq(e, "gif") || str_eq(e, "bmp")
        || str_eq(e, "webp") || str_eq(e, "tiff") || str_eq(e, "tif") || str_eq(e, "heic")
        || str_eq(e, "heif") || str_eq(e, "ico") || is_video_ext(e)
}

/// Whether the path names a still image.
pub fn is_image(p: &str) -> (r: bool)
    ensures
        r == image_ext_spec(lower_of(ext_part(p@))),
{
    let e = ext_of(p);
    is_image_ext(e.as_str())
}

/// Whether the path names a video.
pub fn is_video(p: &str) -> (r: bool)
    ensures
        r == video_ext_spec(lower_of(ext_part(p@))),
{
    let e = ext_of(p);
    is_video_ext(e.as_str())
}

/// Whether an extension, in any case, is indexed by the scanner.
pub fn is_media_ext(ext: &str) -> (r: bool)
    ensures
        r == media_ext_spec(lower_of(ext@)),
{
    let e = lowercase(ext);
    is_indexed_ext(e.as_str())
}

/// Whether the file name in a path string has a media extension; works on
/// `/` and `\` paths alike, and on paths of files that no longer exist.
pub fn has_media_ext(p: &str) -> (r: bool)
    ensures
        r == has_media_ext_spec(p@),
{
    proof {
        lemma_last_index_bounds(p@, '/');
        lemma_last_index_bounds(p@, '\\');
    }
    let n = p.unicode_len();
    let start: usize = match rfind(p, '/') {
        Some(i) => i + 1,
        None => match rfind(p, '\\') {
            Some(j) => j + 1,
            None => 0,
        },
    };
    let name = substring(p, start, n);
    let ghost nm = p@.subrange(name_start(p@), p@.len() as int);
    assert(name@ == nm);
    proof {
        lemma_last_index_bounds(nm, '.');
    }
    match rfind(name.as_str(), '.') {
        Some(d) => {
            let m = name.unicode_len();
            let ext = substring(name.as_str(), d + 1, m);
            is_media_ext(ext.as_str())
        },
        None => false,
    }
}

/// The image extensions, in the order the viewer lists them.
pub fn image_exts() -> (r: Vec<&'static str>)
    ensures
        r@.len() == 11,
        forall|i: int| 0 <= i < r@.len() ==> image_ext_spec(#[trigger] r@[i]@),
{
    vec!["jpg", "jpeg", "png", "gif", "bmp", "webp", "tiff", "tif", "avif", "ico", "svg"]
}

/// The video extensions, in the order the viewer lists them.
pub fn video_exts() -> (r: Vec<&'static str>)
    ensures
        r@.len() == 9,
        forall|i: int| 0 <= i < r@.len() ==> video_ext_spec(#[trigger] r@[i]@),
{
    vec!["mp4", "avi", "mov", "mkv", "webm", "flv", "wmv", "m4v", "3gp"]
}

/// `p` lies under `q`: it is `q` itself or starts with `q` and a `/`.
/// `/photo` does not cover `/photos`.
pub open spec fn under(p: Seq<char>, q: Seq<char>) -> bool {
    p == q || has_prefix(p, q.push('/'))
}

/// Whether `p` is `q` or lies inside it.
pub fn is_under(p: &str, q: &str) -> (r: bool)
    ensures
        r == under(p@, q@),
{
    if str_eq(p, q) {
        return true;
    }
    let n = p.unicode_len();
    let m = q.unicode_len();
    if n <= m || !starts_with(p, q) {
        proof {
            if has_prefix(p@, q@.push('/')) {
                assert(p@.subrange(0, m as int) == q@.push('/').subrange(0, m as int));
                assert(q@.push('/').subrange(0, m as int) == q@);
            }
        }
        return false;
    }
    let c = p.get_char(m);
    proof {
        if has_prefix(p@, q@.push('/')) {
            assert(p@[m as int] == p@.subrange(0, m + 1)[m as int]);
        }
        if c == '/' {
            assert(p@.subrange(0, m + 1) == p@.subrange(0, m as int).push(c));
        }
    }
    c == '/'
}

} // verus!
