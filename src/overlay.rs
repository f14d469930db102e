//! Values the overlay draws with: the glyph ranges the font is loaded with,
//! and text forms of durations and window titles.

use vstd::prelude::*;
use crate::paths::{clean_path, clean_spec, name_spec, str_name};
use crate::store::FileEntry;
use crate::timefmt::{decimal, push_decimal};

verus! {

/// Pairs of inclusive code point ranges, ended by a zero: Basic Latin and
/// Latin-1, Latin Extended-A and -B, general punctuation, arrows, symbols, ❤.
pub fn glyph_ranges() -> (r: Vec<u32>)
    ensures
        r@.len() % 2 == 1,
        r@.last() == 0,
        forall|i: int| 0 <= i < r@.len() - 1 && i % 2 == 0 ==> #[trigger] r@[i] <= r@[i + 1] && r@[i] > 0,
{
    let r = vec![
        0x0020u32, 0x00FF, 0x0100, 0x017F, 0x0180, 0x024F, 0x2000, 0x206F, 0x2190, 0x21FF, 0x2600,
        0x26FF, 0x2764, 0x2764, 0,
    ];
    assert(r@.len() == 15);
    r
}

/// `[N/total] FILENAME[ ♥] — DIR — lv VERSION`, where DIR is the last
/// component of the directory.
pub open spec fn title_spec(n: nat, total: nat, f: FileEntry, dir: Seq<char>, version: Seq<char>) -> Seq<char> {
    seq!['['] + decimal(n) + seq!['/'] + decimal(total) + seq![']', ' '] + f.filename@
        + (if f.liked { seq![' ', '\u{2665}'] } else { Seq::empty() }) + seq![' ', '\u{2014}', ' ']
        + name_spec(clean_spec(dir)) + seq![' ', '\u{2014}', ' ', 'l', 'v', ' '] + version
}

/// The window title for the file under the cursor; `None` when there is none.
pub fn window_title(files: &Vec<FileEntry>, cursor: usize, dir: &str, version: &str) -> (r: Option<String>)
    ensures
        cursor >= files@.len() ==> r.is_none(),
        cursor < files@.len() ==> (r matches Some(t)
            && t@ == title_spec((cursor + 1) as nat, files@.len(), files@[cursor as int], dir@, version@)),
{
    if cursor >= files.len() {
        return None;
    }
    let f = &files[cursor];
    let mut t = String::new();
    crate::text::push_char(&mut t, '[');
    push_decimal(&mut t, (cursor as u64) + 1);
    crate::text::push_char(&mut t, '/');
    push_decimal(&mut t, files.len() as u64);
    crate::text::push_char(&mut t, ']');
    crate::text::push_char(&mut t, ' ');
    t.append(f.filename.as_str());
    if f.liked {
        crate::text::push_char(&mut t, ' ');
        crate::text::push_char(&mut t, '\u{2665}');
    }
    crate::text::push_char(&mut t, ' ');
    crate::text::push_char(&mut t, '\u{2014}');
    crate::text::push_char(&mut t, ' ');
    let clean = clean_path(dir);
    let short = str_name(clean.as_str());
    t.append(short.as_str());
    crate::text::push_char(&mut t, ' ');
    crate::text::push_char(&mut t, '\u{2014}');
    crate::text::push_char(&mut t, ' ');
    crate::text::push_char(&mut t, 'l');
    crate::text::push_char(&mut t, 'v');
    crate::text::push_char(&mut t, ' ');
    t.append(version);
    proof {
        let f0 = files@[cursor as int];
        assert(t@ =~= title_spec((cursor + 1) as nat, files@.len(), f0, dir@, version@));
    }
    Some(t)
}

} // verus!
