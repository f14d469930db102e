//! The navigation state machine: the visible file list, the cursor, the
//! current directory and the collection filter, and how keys move them.

use vstd::prelude::*;
use crate::paths::{ext_part, image_ext_spec, is_image, is_video, video_ext_spec};
use crate::text::lower_of;
use crate::store::{coll_files, dir_files, lemma_dir_list_of, lists_all, strs_view, strictly_sorted, Db, FileEntry};
use crate::text::{lex_lt, lemma_lex_irreflexive, str_eq, str_lt};

verus! {

/// The first position of `x` in `s`, or -1.
pub open spec fn first_pos(s: Seq<Seq<char>>, x: Seq<char>) -> int
    decreases s.len(),
{
    if s.len() == 0 {
        -1
    } else if first_pos(s.drop_last(), x) >= 0 {
        first_pos(s.drop_last(), x)
    } else if s.last() == x {
        s.len() - 1
    } else {
        -1
    }
}

proof fn lemma_first_pos(s: Seq<Seq<char>>, x: Seq<char>)
    ensures
        -1 <= first_pos(s, x) < s.len(),
        first_pos(s, x) >= 0 ==> s[first_pos(s, x)] == x,
        forall|j: int| 0 <= j < s.len() && (first_pos(s, x) < 0 || j < first_pos(s, x)) ==> s[j] != x,
    decreases s.len(),
{
    if s.len() > 0 {
        lemma_first_pos(s.drop_last(), x);
        assert forall|j: int| 0 <= j < s.len() - 1 implies s[j] == s.drop_last()[j] by {}
    }
}

/// The first position whose directory sorts after `cur`, or the length.
pub open spec fn first_after(s: Seq<Seq<char>>, cur: Seq<char>) -> int
    decreases s.len(),
{
    if s.len() == 0 {
        0
    } else if first_after(s.drop_last(), cur) < s.len() - 1 {
        first_after(s.drop_last(), cur)
    } else if lex_lt(cur, s.last()) {
        s.len() - 1
    } else {
        s.len() as int
    }
}

/// The index of the directory next to `cur` in `dirs`, after it for a
/// positive `delta` and before it otherwise; `None` at either end. When `cur`
/// is not in the list, its neighbours are the entries that would surround it.
pub open spec fn nav_dir_index(dirs: Seq<Seq<char>>, cur: Seq<char>, delta: int) -> Option<int> {
    let n = if first_pos(dirs, cur) >= 0 {
        first_pos(dirs, cur) + if delta > 0 { 1int } else { -1int }
    } else if delta > 0 {
        first_after(dirs, cur)
    } else {
        first_after(dirs, cur) - 1
    };
    if 0 <= n < dirs.len() { Some(n) } else { None }
}

proof fn lemma_first_after(s: Seq<Seq<char>>, cur: Seq<char>)
    ensures
        0 <= first_after(s, cur) <= s.len(),
        first_after(s, cur) < s.len() ==> lex_lt(cur, s[first_after(s, cur)]),
        forall|j: int| 0 <= j < first_after(s, cur) ==> !lex_lt(cur, #[trigger] s[j]),
    decreases s.len(),
{
    if s.len() > 0 {
        lemma_first_after(s.drop_last(), cur);
        assert forall|j: int| 0 <= j < s.len() - 1 implies s[j] == s.drop_last()[j] by {}
    }
}

/// What `navigate_dir` returns over a list of directory texts.
pub open spec fn nav_dir_spec(dirs: Seq<Seq<char>>, cur: Seq<char>, delta: int) -> Option<Seq<char>> {
    match nav_dir_index(dirs, cur, delta) {
        Some(i) => Some(dirs[i]),
        None => None,
    }
}

pub open spec fn opt_string_view(o: Option<String>) -> Option<Seq<char>> {
    match o {
        Some(s) => Some(s@),
        None => None,
    }
}

/// The directory `delta` steps away from `current` in `dirs`.
pub fn navigate_dir(dirs: &Vec<String>, current: &str, delta: i32) -> (r: Option<String>)
    ensures
        opt_string_view(r) == nav_dir_spec(strs_view(dirs@), current@, delta as int),
{
    let n = dirs.len();
    if n == 0 {
        return None;
    }
    let ghost v = strs_view(dirs@);
    proof {
        lemma_first_pos(v, current@);
    }
    let mut i: usize = 0;
    while i < n
        invariant
            n == dirs@.len(),
            v == strs_view(dirs@),
            i <= n,
            forall|j: int| 0 <= j < i ==> v[j] != current@,
        ensures
            i <= n,
            forall|j: int| 0 <= j < i ==> v[j] != current@,
            i < n ==> v[i as int] == current@,
        decreases n - i,
    {
        if str_eq(dirs[i].as_str(), current) {
            break;
        }
        i = i + 1;
    }
    let target: i128 = if i < n {
        proof {
            assert(first_pos(v, current@) == i);
        }
        if delta > 0 { i as i128 + 1 } else { i as i128 - 1 }
    } else {
        proof {
            assert(first_pos(v, current@) < 0);
            lemma_first_after(v, current@);
        }
        let mut j: usize = 0;
        while j < n
            invariant
                n == dirs@.len(),
                v == strs_view(dirs@),
                j <= n,
                forall|q: int| 0 <= q < j ==> !lex_lt(current@, v[q]),
            ensures
                j <= n,
                forall|q: int| 0 <= q < j ==> !lex_lt(current@, v[q]),
                j < n ==> lex_lt(current@, v[j as int]),
            decreases n - j,
        {
            if str_lt(current, dirs[j].as_str()) {
                break;
            }
            j = j + 1;
        }
        proof {
            lemma_first_after(v, current@);
            let fa = first_after(v, current@);
            if fa < j {
                assert(!lex_lt(current@, v[fa]));
            }
            if (j as int) < fa {
                assert(!lex_lt(current@, v[j as int]));
            }
            assert(fa == j);
        }
        if delta > 0 { j as i128 } else { j as i128 - 1 }
    };
    if 0 <= target && target < n as i128 {
        Some(dirs[target as usize].clone())
    } else {
        None
    }
}

/// The first directory in sorted order.
pub fn first_dir(dirs: &Vec<String>) -> (r: Option<String>)
    ensures
        dirs@.len() == 0 ==> r.is_none(),
        dirs@.len() > 0 ==> (r matches Some(d) && d@ == dirs@[0]@),
{
    if dirs.len() == 0 {
        None
    } else {
        Some(dirs[0].clone())
    }
}

/// The last directory of a sorted list has nothing after it, and the first
/// has nothing before it.
pub proof fn lemma_nav_ends(dirs: Seq<Seq<char>>)
    requires
        strictly_sorted(dirs),
        dirs.len() > 0,
    ensures
        nav_dir_spec(dirs, dirs[dirs.len() - 1], 1).is_none(),
        nav_dir_spec(dirs, dirs[0], -1).is_none(),
{
    let last = dirs[dirs.len() - 1];
    lemma_first_pos(dirs, last);
    lemma_first_pos(dirs, dirs[0]);
    let p = first_pos(dirs, last);
    if p != dirs.len() - 1 {
        assert(lex_lt(dirs[p], dirs[dirs.len() - 1]));
        lemma_lex_irreflexive(last);
    }
}

/// Where the cursor lands in a directory that is entered.
pub enum Landing {
    First,
    Last,
}

/// The viewer's position: the visible files, the cursor into them, the
/// current directory and, when a collection is shown, its number.
pub struct Nav {
    pub files: Vec<FileEntry>,
    pub cursor: usize,
    pub current_dir: String,
    pub collection_mode: Option<u8>,
}

impl Nav {
    /// The cursor is inside the list, or zero for an empty list.
    pub open spec fn wf(&self) -> bool {
        self.cursor < self.files@.len() || (self.cursor == 0 && self.files@.len() == 0)
    }

    /// The file under the cursor, if any.
    pub open spec fn current_id(&self) -> Option<i64> {
        if self.cursor < self.files@.len() {
            Some(self.files@[self.cursor as int].id)
        } else {
            None
        }
    }

    /// `new` shows directory `d` of `db`, entered at `at`; nothing else changed.
    pub open spec fn entered(old: Nav, new: Nav, db: Db, d: Seq<char>, at: Landing) -> bool {
        &&& dir_files(db.files@, d).len() > 0
        &&& lists_all(new.files@, dir_files(db.files@, d), db.metas@)
        &&& new.current_dir@ == d
        &&& new.collection_mode == old.collection_mode
        &&& new.cursor == match at {
            Landing::First => 0,
            Landing::Last => (new.files@.len() - 1) as usize,
        }
    }

    /// `new` is `old` after crossing `delta` directories, landing at `at`, or
    /// `old` itself where there is no such directory or it holds no file.
    pub open spec fn crossed(old: Nav, new: Nav, db: Db, delta: int, at: Landing, moved: bool) -> bool {
        match nav_dir_spec(db.dir_list(), old.current_dir@, delta) {
            Some(d) => if dir_files(db.files@, d).len() > 0 {
                moved && Nav::entered(old, new, db, d, at)
            } else {
                !moved && new == old
            },
            None => !moved && new == old,
        }
    }

    /// Moves to the directory `delta` steps away.
    pub fn cross_dir(&mut self, db: &Db, delta: i32, at: Landing) -> (moved: bool)
        requires
            db.wf(),
        ensures
            Nav::crossed(*old(self), *final(self), *db, delta as int, at, moved),
    {
        let dirs = db.dirs();
        match navigate_dir(&dirs, self.current_dir.as_str(), delta) {
            Some(d) => {
                let fs = db.files_by_dir(d.as_str());
                if fs.len() == 0 {
                    return false;
                }
                let n = fs.len();
                self.files = fs;
                self.current_dir = d;
                self.cursor = match at {
                    Landing::First => 0,
                    Landing::Last => n - 1,
                };
                true
            },
            None => false,
        }
    }

    /// Everything but the cursor is unchanged.
    pub open spec fn same_list(a: Nav, b: Nav) -> bool {
        &&& a.files@ == b.files@
        &&& a.current_dir@ == b.current_dir@
        &&& a.collection_mode == b.collection_mode
    }

    /// What `j` does: the next file, or the first file of the next directory.
    pub open spec fn j_post(old: Nav, new: Nav, db: Db, moved: bool) -> bool {
        if old.cursor + 1 < old.files@.len() {
            moved && Nav::same_list(old, new) && new.cursor == old.cursor + 1
        } else {
            Nav::crossed(old, new, db, 1, Landing::First, moved)
        }
    }

    /// What `k` does: the previous file, or the last file of the previous directory.
    pub open spec fn k_post(old: Nav, new: Nav, db: Db, moved: bool) -> bool {
        if old.cursor > 0 {
            moved && Nav::same_list(old, new) && new.cursor == old.cursor - 1
        } else {
            Nav::crossed(old, new, db, -1, Landing::Last, moved)
        }
    }

    /// What `h` does: back to the first file, or to the previous directory.
    pub open spec fn h_post(old: Nav, new: Nav, db: Db, moved: bool) -> bool {
        if old.cursor > 0 {
            moved && Nav::same_list(old, new) && new.cursor == 0
        } else {
            Nav::crossed(old, new, db, -1, Landing::First, moved)
        }
    }

    /// Key `j`.
    pub fn key_j(&mut self, db: &Db) -> (moved: bool)
        requires
            db.wf(),
        ensures
            Nav::j_post(*old(self), *final(self), *db, moved),
    {
        let n = self.files.len();
        if n > 0 && self.cursor < n - 1 {
            self.cursor = self.cursor + 1;
            true
        } else {
            self.cross_dir(db, 1, Landing::First)
        }
    }

    /// Key `k`.
    pub fn key_k(&mut self, db: &Db) -> (moved: bool)
        requires
            db.wf(),
        ensures
            Nav::k_post(*old(self), *final(self), *db, moved),
    {
        if self.cursor > 0 {
            self.cursor = self.cursor - 1;
            true
        } else {
            self.cross_dir(db, -1, Landing::Last)
        }
    }

    /// Key `l`: the first file of the next directory.
    pub fn key_l(&mut self, db: &Db) -> (moved: bool)
        requires
            db.wf(),
        ensures
            Nav::crossed(*old(self), *final(self), *db, 1, Landing::First, moved),
    {
        self.cross_dir(db, 1, Landing::First)
    }

    /// Key `h`.
    pub fn key_h(&mut self, db: &Db) -> (moved: bool)
        requires
            db.wf(),
        ensures
            Nav::h_post(*old(self), *final(self), *db, moved),
    {
        if self.cursor > 0 {
            self.cursor = 0;
            true
        } else {
            self.cross_dir(db, -1, Landing::First)
        }
    }
}

/// `j` followed by `k` from a cursor with a file after it comes back to the
/// same file.
pub proof fn law_j_then_k(n0: Nav, n1: Nav, n2: Nav, db: Db, m1: bool, m2: bool)
    requires
        n0.cursor + 1 < n0.files@.len(),
        Nav::j_post(n0, n1, db, m1),
        Nav::k_post(n1, n2, db, m2),
    ensures
        Nav::same_list(n0, n2),
        n2.cursor == n0.cursor,
        n2.current_id() == n0.current_id(),
{
}

/// `h` on the first file of the first directory changes nothing, and `l` in
/// the last directory changes nothing.
pub proof fn law_directory_ends(n0: Nav, n1: Nav, db: Db, moved: bool)
    requires
        db.wf(),
        db.dir_list().len() > 0,
    ensures
        n0.cursor == 0 && n0.current_dir@ == db.dir_list()[0] && Nav::h_post(n0, n1, db, moved)
            ==> n1 == n0 && !moved,
        n0.current_dir@ == db.dir_list()[db.dir_list().len() - 1]
            && Nav::crossed(n0, n1, db, 1, Landing::First, moved) ==> n1 == n0 && !moved,
{
    lemma_dir_list_of(db.files@);
    lemma_nav_ends(db.dir_list());
}

/// What a dropped path is.
#[derive(PartialEq, Eq, Structural, Clone, Copy, Debug)]
pub enum DropKind {
    /// An image or video file: its parent directory is opened.
    MediaFile,
    /// A directory: it is opened.
    Directory,
    /// Anything else, which is refused.
    Rejected,
}

/// Classifies a dropped, canonical path by what is on disk and its extension.
pub fn drop_kind(path: &str, is_file: bool, is_dir: bool) -> (r: DropKind)
    ensures
        is_file ==> r == if image_ext_spec(lower_of(ext_part(path@))) || video_ext_spec(lower_of(ext_part(path@))) {
            DropKind::MediaFile
        } else {
            DropKind::Rejected
        },
        !is_file && is_dir ==> r == DropKind::Directory,
        !is_file && !is_dir ==> r == DropKind::Rejected,
{
    if is_file {
        if is_image(path) || is_video(path) { DropKind::MediaFile } else { DropKind::Rejected }
    } else if is_dir {
        DropKind::Directory
    } else {
        DropKind::Rejected
    }
}

/// The position of the entry with path `p`.
pub fn position_of_path(files: &Vec<FileEntry>, p: &str) -> (r: Option<usize>)
    ensures
        match r {
            Some(i) => i < files@.len() && files@[i as int].path@ == p@,
            None => forall|j: int| 0 <= j < files@.len() ==> (#[trigger] files@[j]).path@ != p@,
        },
{
    let mut i: usize = 0;
    while i < files.len()
        invariant
            i <= files@.len(),
            forall|j: int| 0 <= j < i ==> (#[trigger] files@[j]).path@ != p@,
        decreases files@.len() - i,
    {
        if str_eq(files[i].path.as_str(), p) {
            return Some(i);
        }
        i = i + 1;
    }
    None
}

impl Db {
    /// Before scanning a dropped directory: tracks it, non-recursively, when
    /// neither it nor a recursive ancestor is tracked. Returns whether it did,
    /// which is when the dropped files are temporary.
    pub fn prepare_drop(&mut self, dir: &str) -> (temporary: bool)
        requires
            old(self).wf(),
        ensures
            final(self).wf(),
            final(self).files@ == old(self).files@,
            final(self).metas@ == old(self).metas@,
            temporary == (!old(self).tracked_spec(dir@) && !old(self).covered_spec(dir@)),
            temporary ==> exists|k: int| 0 <= k < final(self).dirs@.len() && (#[trigger] final(self).dirs@[k]).path@ == dir@
                && final(self).dirs@[k].is_tracked && !final(self).dirs@[k].recursive && !final(self).dirs@[k].is_watched,
            final(self).history@ == old(self).history@,
            final(self).failures@ == old(self).failures@,
            !temporary ==> final(self).dirs@ == old(self).dirs@,
    {
        if !self.dir_is_tracked(dir) && !self.dir_is_covered(dir) {
            let ghost d0 = self.dirs@;
            self.dir_track(dir, false);
            proof {
                let d1 = self.dirs@;
                let w = choose|k: int| 0 <= k < d1.len() && (#[trigger] d1[k]).path@ == dir@
                    && d1[k].is_tracked && d1[k].recursive == false;
                if w < d0.len() {
                    if d0[w].path@ != dir@ {
                        assert(d1[w] == d0[w]);
                    }
                    assert(!d0[w].is_tracked);
                    assert(!d0[w].is_watched);
                }
                assert(!d1[w].is_watched);
            }
            true
        } else {
            false
        }
    }
}

impl Nav {
    /// Shows a dropped directory once it has been scanned: the temporary
    /// collection when its files are temporary, else the directory itself,
    /// with the cursor on the dropped file (or the first file). Returns
    /// false, leaving everything as it was, when there is nothing to show.
    pub fn open_dropped(&mut self, db: &Db, dir: &str, file: Option<&str>, temporary: bool) -> (shown: bool)
        requires
            db.wf(),
        ensures
            shown == if temporary {
                coll_files(db.files@, db.metas@, 1).len() > 0
            } else {
                dir_files(db.files@, dir@).len() > 0
            },
            !shown ==> *final(self) == *old(self),
            shown ==> {
                &&& final(self).files@.len() > 0
                &&& if temporary {
                    final(self).collection_mode == Some(1u8)
                        && lists_all(final(self).files@, coll_files(db.files@, db.metas@, 1), db.metas@)
                } else {
                    final(self).collection_mode.is_none()
                        && lists_all(final(self).files@, dir_files(db.files@, dir@), db.metas@)
                }
                &&& final(self).current_dir@ == dir@
                &&& match file {
                    Some(p) => if exists|i: int| 0 <= i < final(self).files@.len() && (#[trigger] final(self).files@[i]).path@ == p@ {
                        final(self).files@[final(self).cursor as int].path@ == p@
                    } else {
                        final(self).cursor == 0
                    },
                    None => final(self).cursor == 0,
                }
            },
    {
        let files = if temporary { db.files_by_collection(1) } else { db.files_by_dir(dir) };
        if files.len() == 0 {
            return false;
        }
        let cursor: usize = match file {
            Some(p) => match position_of_path(&files, p) {
                Some(i) => i,
                None => 0,
            },
            None => 0,
        };
        self.files = files;
        self.cursor = cursor;
        self.current_dir = String::from_str(dir);
        self.collection_mode = if temporary { Some(1) } else { None };
        true
    }
}

impl Nav {
    /// `Ctrl+c`: shows collection `c`, or goes back to the current directory
    /// when `c` is already shown; the cursor starts at the first file.
    pub fn toggle_collection_view(&mut self, db: &Db, c: u8)
        requires
            db.wf(),
        ensures
            final(self).cursor == 0,
            final(self).current_dir == old(self).current_dir,
            old(self).collection_mode == Some(c) ==> final(self).collection_mode.is_none()
                && lists_all(final(self).files@, dir_files(db.files@, old(self).current_dir@), db.metas@),
            old(self).collection_mode != Some(c) ==> final(self).collection_mode == Some(c)
                && lists_all(final(self).files@, coll_files(db.files@, db.metas@, c), db.metas@),
    {
        let same = match self.collection_mode {
            Some(m) => m == c,
            None => false,
        };
        if same {
            self.collection_mode = None;
            self.files = db.files_by_dir(self.current_dir.as_str());
        } else {
            self.collection_mode = Some(c);
            self.files = db.files_by_collection(c);
        }
        self.cursor = 0;
    }

    /// Moves to `file`: within the visible list when it is there, else to
    /// its directory. Returns false, changing nothing, when that directory
    /// lists no file.
    pub fn jump_to(&mut self, db: &Db, file: FileEntry) -> (moved: bool)
        requires
            db.wf(),
        ensures
            (exists|i: int| 0 <= i < old(self).files@.len() && (#[trigger] old(self).files@[i]).id == file.id) ==> {
                &&& moved
                &&& Nav::same_list(*old(self), *final(self))
                &&& final(self).cursor < final(self).files@.len()
                &&& final(self).files@[final(self).cursor as int].id == file.id
            },
            !(exists|i: int| 0 <= i < old(self).files@.len() && (#[trigger] old(self).files@[i]).id == file.id) ==> {
                if dir_files(db.files@, file.dir@).len() > 0 {
                    &&& moved
                    &&& lists_all(final(self).files@, dir_files(db.files@, file.dir@), db.metas@)
                    &&& final(self).current_dir@ == file.dir@
                    &&& final(self).collection_mode == old(self).collection_mode
                    &&& final(self).cursor < final(self).files@.len()
                } else {
                    !moved && *final(self) == *old(self)
                }
            },
    {
        match crate::display::position_of(&self.files, file.id) {
            Some(i) => {
                self.cursor = i;
                return true;
            },
            None => {},
        }
        let fs = db.files_by_dir(file.dir.as_str());
        if fs.len() == 0 {
            return false;
        }
        let idx = match crate::display::position_of(&fs, file.id) {
            Some(i) => i,
            None => 0,
        };
        self.files = fs;
        self.current_dir = file.dir;
        self.cursor = idx;
        true
    }

    /// `y` / `9`: toggles like on the file under the cursor and records the
    /// new state in the list. `None` when the list is empty.
    pub fn like_current(&mut self, db: &mut Db) -> (r: Option<bool>)
        requires
            old(db).wf(),
        ensures
            final(db).wf(),
            old(self).cursor >= old(self).files@.len() ==> r.is_none() && *final(db) == *old(db) && *final(self) == *old(self),
            old(self).cursor < old(self).files@.len() ==> {
                let id = old(self).files@[old(self).cursor as int].id;
                &&& r matches Some(liked)
                &&& Db::like_toggled(*old(db), *final(db), id, liked)
                &&& final(self).files@[old(self).cursor as int].liked == liked
                &&& final(self).files@.len() == old(self).files@.len()
                &&& final(self).cursor == old(self).cursor
            },
    {
        if self.cursor >= self.files.len() {
            return None;
        }
        let id = self.files[self.cursor].id;
        let liked = db.toggle_like(id);
        let c = self.cursor;
        self.files[c].liked = liked;
        Some(liked)
    }

    /// `r`: re-reads the current directory, keeping the cursor on its file
    /// (the first file when it is gone).
    pub fn refresh(&mut self, db: &Db)
        requires
            db.wf(),
        ensures
            lists_all(final(self).files@, dir_files(db.files@, old(self).current_dir@), db.metas@),
            final(self).current_dir == old(self).current_dir,
            final(self).collection_mode == old(self).collection_mode,
            match old(self).current_id() {
                Some(id) => if exists|i: int| 0 <= i < final(self).files@.len() && (#[trigger] final(self).files@[i]).id == id {
                    final(self).cursor < final(self).files@.len() && final(self).files@[final(self).cursor as int].id == id
                } else {
                    final(self).cursor == 0
                },
                None => final(self).cursor == 0,
            },
    {
        let old_id: Option<i64> = if self.cursor < self.files.len() { Some(self.files[self.cursor].id) } else { None };
        let fs = db.files_by_dir(self.current_dir.as_str());
        let cursor = match old_id {
            Some(id) => match crate::display::position_of(&fs, id) {
                Some(i) => i,
                None => 0,
            },
            None => 0,
        };
        self.files = fs;
        self.cursor = cursor;
    }
}

/// In a catalogue with files, the lexicographically last directory has no
/// next directory.
pub proof fn law_last_dir_has_no_next(db: Db)
    requires
        db.dir_list().len() > 0,
    ensures
        nav_dir_spec(db.dir_list(), db.dir_list()[db.dir_list().len() - 1], 1).is_none(),
{
    lemma_dir_list_of(db.files@);
    lemma_nav_ends(db.dir_list());
}

} // verus!
