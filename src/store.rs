//! The index store: files, content metadata, directory tracking, history
//! and the job-failure ledger, held as plain records with their invariant.

use vstd::prelude::*;
use crate::paths::{is_under, long_prefix, name_spec, parent_spec, str_name, str_parent, under};
use crate::jobs::Layer;
use crate::paths::{ext_part, ext_of};
use crate::text::{last_index, lower_of, lemma_lex_irreflexive, lemma_lex_total, lemma_lex_transitive};
use crate::text::{has_prefix, lex_lt, starts_with, str_eq, str_lt};

verus! {

/// One indexed file.
pub struct FileRec {
    pub id: i64,
    pub path: String,
    pub dir: String,
    pub filename: String,
    pub size: Option<i64>,
    pub modified_at: Option<String>,
    pub hash: Option<String>,
    pub meta_id: Option<i64>,
    pub temporary: bool,
}

/// A file as the viewer lists it.
pub struct FileEntry {
    pub id: i64,
    pub path: String,
    pub dir: String,
    pub filename: String,
    pub meta_id: Option<i64>,
    pub liked: bool,
    pub temporary: bool,
}

/// Everything the info panel shows about one file.
pub struct FileMeta {
    pub filename: String,
    pub path: String,
    pub dir: String,
    pub size: Option<i64>,
    pub modified_at: Option<String>,
    pub hash_sha512: Option<String>,
    pub width: Option<u32>,
    pub height: Option<u32>,
    pub format: Option<String>,
    pub tags: Vec<String>,
    pub pnginfo: Option<String>,
}

/// Attributes shared by all files with the same content hash.
pub struct MetaRec {
    pub id: i64,
    pub hash: String,
    pub width: Option<u32>,
    pub height: Option<u32>,
    pub format: Option<String>,
    pub generator_info: Option<String>,
    pub tags: Vec<String>,
}

/// A directory known to the library.
pub struct DirRec {
    pub path: String,
    pub is_tracked: bool,
    pub is_watched: bool,
    pub recursive: bool,
}

/// What a history row records.
#[derive(PartialEq, Eq, Structural, Clone, Copy, Debug)]
pub enum Action {
    View,
    Like,
    Unlike,
}

/// One appended history row; rows are kept in the order they were written.
pub struct HistoryEvent {
    pub file_id: i64,
    pub action: Action,
}

/// A metadata layer that failed for a file and is not retried.
pub struct JobFailure {
    pub file_id: i64,
    pub layer: Layer,
    pub error: String,
}

/// The whole catalogue.
pub struct Db {
    pub files: Vec<FileRec>,
    pub metas: Vec<MetaRec>,
    pub dirs: Vec<DirRec>,
    pub history: Vec<HistoryEvent>,
    pub failures: Vec<JobFailure>,
    pub next_file_id: i64,
    pub next_meta_id: i64,
}

/// Files are kept in strictly increasing path order.
pub open spec fn files_sorted(f: Seq<FileRec>) -> bool {
    forall|i: int, j: int| 0 <= i < j < f.len() ==> lex_lt(#[trigger] f[i].path@, #[trigger] f[j].path@)
}

pub open spec fn meta_index_valid(m: Seq<MetaRec>, id: i64, h: Seq<char>) -> bool {
    exists|k: int| 0 <= k < m.len() && #[trigger] m[k].id == id && m[k].hash@ == h
}

impl Db {
    pub open spec fn file_ok(&self, f: FileRec) -> bool {
        &&& 0 < f.id < self.next_file_id
        &&& f.dir@ == parent_spec(f.path@)
        &&& f.filename@ == name_spec(f.path@)
        &&& !has_prefix(f.path@, long_prefix())
        &&& (f.meta_id matches Some(m) ==> f.hash matches Some(h) && meta_index_valid(self.metas@, m, h@))
    }

    /// The catalogue's invariant.
    pub open spec fn wf(&self) -> bool {
        &&& files_sorted(self.files@)
        &&& forall|i: int| 0 <= i < self.files@.len() ==> self.file_ok(#[trigger] self.files@[i])
        &&& forall|i: int, j: int|
            0 <= i < self.files@.len() && 0 <= j < self.files@.len() && i != j
                ==> #[trigger] self.files@[i].id != #[trigger] self.files@[j].id
        &&& forall|i: int| 0 <= i < self.metas@.len() ==> 0 < #[trigger] self.metas@[i].id < self.next_meta_id
        &&& forall|i: int, j: int|
            0 <= i < self.metas@.len() && 0 <= j < self.metas@.len() && i != j
                ==> #[trigger] self.metas@[i].id != #[trigger] self.metas@[j].id
        &&& forall|i: int, j: int|
            0 <= i < self.metas@.len() && 0 <= j < self.metas@.len() && i != j
                ==> #[trigger] self.metas@[i].hash@ != #[trigger] self.metas@[j].hash@
        &&& forall|i: int, j: int|
            0 <= i < self.dirs@.len() && 0 <= j < self.dirs@.len() && i != j
                ==> #[trigger] self.dirs@[i].path@ != #[trigger] self.dirs@[j].path@
        &&& forall|i: int| 0 <= i < self.dirs@.len() ==> (#[trigger] self.dirs@[i]).is_watched ==> self.dirs@[i].is_tracked
        &&& self.next_file_id >= 1
        &&& self.next_meta_id >= 1
    }

    /// Whether `p` has a tracked row.
    pub open spec fn tracked_spec(&self, p: Seq<char>) -> bool {
        exists|k: int| 0 <= k < self.dirs@.len() && (#[trigger] self.dirs@[k]).path@ == p && self.dirs@[k].is_tracked
    }

    /// Whether some tracked recursive directory covers `p`.
    pub open spec fn covered_spec(&self, p: Seq<char>) -> bool {
        exists|k: int|
            0 <= k < self.dirs@.len() && (#[trigger] self.dirs@[k]).is_tracked && self.dirs@[k].recursive
                && under(p, self.dirs@[k].path@)
    }

    /// An empty catalogue.
    pub fn new() -> (r: Db)
        ensures
            r.wf(),
            r.files@.len() == 0,
            r.metas@.len() == 0,
            r.dirs@.len() == 0,
            r.history@.len() == 0,
            r.failures@.len() == 0,
            r.next_file_id == 1,
            r.next_meta_id == 1,
    {
        Db {
            files: Vec::new(),
            metas: Vec::new(),
            dirs: Vec::new(),
            history: Vec::new(),
            failures: Vec::new(),
            next_file_id: 1,
            next_meta_id: 1,
        }
    }

    fn find_dir(&self, path: &str) -> (r: Option<usize>)
        requires
            self.wf(),
        ensures
            match r {
                Some(k) => k < self.dirs@.len() && self.dirs@[k as int].path@ == path@,
                None => forall|k: int| 0 <= k < self.dirs@.len() ==> (#[trigger] self.dirs@[k]).path@ != path@,
            },
    {
        let mut i: usize = 0;
        while i < self.dirs.len()
            invariant
                i <= self.dirs@.len(),
                forall|k: int| 0 <= k < i ==> (#[trigger] self.dirs@[k]).path@ != path@,
            decreases self.dirs@.len() - i,
        {
            if str_eq(self.dirs[i].path.as_str(), path) {
                return Some(i);
            }
            i = i + 1;
        }
        None
    }

    /// Marks `path` tracked, with the given recursion, adding its row if needed.
    pub fn dir_track(&mut self, path: &str, recursive: bool)
        requires
            old(self).wf(),
        ensures
            final(self).wf(),
            final(self).files@ == old(self).files@,
            final(self).metas@ == old(self).metas@,
            final(self).history@ == old(self).history@,
            final(self).failures@ == old(self).failures@,
            old(self).dirs@.len() <= final(self).dirs@.len() <= old(self).dirs@.len() + 1,
            exists|k: int|
                0 <= k < final(self).dirs@.len() && (#[trigger] final(self).dirs@[k]).path@ == path@
                    && final(self).dirs@[k].is_tracked && final(self).dirs@[k].recursive == recursive,
            forall|k: int|
                0 <= k < old(self).dirs@.len() && (#[trigger] old(self).dirs@[k]).path@ != path@
                    ==> final(self).dirs@[k] == old(self).dirs@[k],
            forall|k: int|
                old(self).dirs@.len() <= k < final(self).dirs@.len() ==> (#[trigger] final(self).dirs@[k]).path@ == path@
                    && final(self).dirs@[k].is_tracked && final(self).dirs@[k].recursive == recursive
                    && !final(self).dirs@[k].is_watched,
            forall|k: int|
                0 <= k < old(self).dirs@.len() && (#[trigger] old(self).dirs@[k]).path@ == path@
                    ==> final(self).dirs@[k].path@ == path@ && final(self).dirs@[k].is_tracked
                    && final(self).dirs@[k].recursive == recursive
                    && final(self).dirs@[k].is_watched == old(self).dirs@[k].is_watched,
            final(self).next_file_id == old(self).next_file_id,
            final(self).next_meta_id == old(self).next_meta_id,
    {
        match self.find_dir(path) {
            Some(k) => {
                let is_watched = self.dirs[k].is_watched;
                let row = DirRec { path: String::from_str(path), is_tracked: true, is_watched, recursive };
                self.dirs.remove(k);
                self.dirs.insert(k, row);
                assert(self.dirs@[k as int] == row);
            },
            None => {
                let row = DirRec { path: String::from_str(path), is_tracked: true, is_watched: false, recursive };
                self.dirs.push(row);
                assert(self.dirs@[self.dirs@.len() - 1] == row);
            },
        }
    }

    fn set_dir_flags(&mut self, k: usize, is_tracked: bool, is_watched: bool)
        requires
            old(self).wf(),
            k < old(self).dirs@.len(),
            is_watched ==> is_tracked,
        ensures
            final(self).wf(),
            final(self).files@ == old(self).files@,
            final(self).metas@ == old(self).metas@,
            final(self).history@ == old(self).history@,
            final(self).failures@ == old(self).failures@,
            final(self).dirs@.len() == old(self).dirs@.len(),
            final(self).dirs@[k as int].path@ == old(self).dirs@[k as int].path@,
            final(self).dirs@[k as int].is_tracked == is_tracked,
            final(self).dirs@[k as int].is_watched == is_watched,
            final(self).dirs@[k as int].recursive == old(self).dirs@[k as int].recursive,
            forall|j: int| 0 <= j < old(self).dirs@.len() && j != k ==> final(self).dirs@[j] == old(self).dirs@[j],
    {
        let old_row = self.dirs.remove(k);
        let row = DirRec { path: old_row.path, is_tracked, is_watched, recursive: old_row.recursive };
        self.dirs.insert(k, row);
    }

    /// Stops tracking (and watching) `path`.
    pub fn dir_untrack(&mut self, path: &str)
        requires
            old(self).wf(),
        ensures
            final(self).wf(),
            final(self).files@ == old(self).files@,
            final(self).dirs@.len() == old(self).dirs@.len(),
            forall|k: int| 0 <= k < old(self).dirs@.len() ==> {
                let (a, b) = (old(self).dirs@[k], #[trigger] final(self).dirs@[k]);
                if a.path@ == path@ {
                    b.path@ == a.path@ && !b.is_tracked && !b.is_watched && b.recursive == a.recursive
                } else {
                    b == a
                }
            },
    {
        if let Some(k) = self.find_dir(path) {
            self.set_dir_flags(k, false, false);
        }
    }

    /// Starts watching `path`; does nothing unless it is tracked.
    pub fn dir_watch(&mut self, path: &str)
        requires
            old(self).wf(),
        ensures
            final(self).wf(),
            final(self).files@ == old(self).files@,
            final(self).dirs@.len() == old(self).dirs@.len(),
            forall|k: int| 0 <= k < old(self).dirs@.len() ==> {
                let (a, b) = (old(self).dirs@[k], #[trigger] final(self).dirs@[k]);
                if a.path@ == path@ && a.is_tracked {
                    b.path@ == a.path@ && b.is_tracked && b.is_watched && b.recursive == a.recursive
                } else {
                    b == a
                }
            },
    {
        if let Some(k) = self.find_dir(path) {
            if self.dirs[k].is_tracked {
                self.set_dir_flags(k, true, true);
            }
        }
    }

    /// Stops watching `path`.
    pub fn dir_unwatch(&mut self, path: &str)
        requires
            old(self).wf(),
        ensures
            final(self).wf(),
            final(self).files@ == old(self).files@,
            final(self).dirs@.len() == old(self).dirs@.len(),
            forall|k: int| 0 <= k < old(self).dirs@.len() ==> {
                let (a, b) = (old(self).dirs@[k], #[trigger] final(self).dirs@[k]);
                if a.path@ == path@ {
                    b.path@ == a.path@ && b.is_tracked == a.is_tracked && !b.is_watched && b.recursive == a.recursive
                } else {
                    b == a
                }
            },
    {
        if let Some(k) = self.find_dir(path) {
            let t = self.dirs[k].is_tracked;
            self.set_dir_flags(k, t, false);
        }
    }

    /// Whether `path` has a tracked row.
    pub fn dir_is_tracked(&self, path: &str) -> (r: bool)
        requires
            self.wf(),
        ensures
            r == self.tracked_spec(path@),
    {
        match self.find_dir(path) {
            Some(k) => self.dirs[k].is_tracked,
            None => false,
        }
    }

    /// Whether a tracked recursive directory covers `path`.
    pub fn dir_is_covered(&self, path: &str) -> (r: bool)
        requires
            self.wf(),
        ensures
            r == self.covered_spec(path@),
    {
        let mut i: usize = 0;
        while i < self.dirs.len()
            invariant
                i <= self.dirs@.len(),
                forall|k: int| 0 <= k < i ==> !((#[trigger] self.dirs@[k]).is_tracked && self.dirs@[k].recursive && under(path@, self.dirs@[k].path@)),
            decreases self.dirs@.len() - i,
        {
            let d = &self.dirs[i];
            if d.is_tracked && d.recursive && is_under(path, d.path.as_str()) {
                return true;
            }
            i = i + 1;
        }
        false
    }

    fn find_file_path(&self, path: &str) -> (r: Option<usize>)
        requires
            self.wf(),
        ensures
            match r {
                Some(k) => path_pos(self.files@, path@, k as int),
                None => !has_path(self.files@, path@),
            },
    {
        let mut i: usize = 0;
        while i < self.files.len()
            invariant
                i <= self.files@.len(),
                forall|k: int| 0 <= k < i ==> (#[trigger] self.files@[k]).path@ != path@,
            decreases self.files@.len() - i,
        {
            if str_eq(self.files[i].path.as_str(), path) {
                assert(path_pos(self.files@, path@, i as int));
                return Some(i);
            }
            i = i + 1;
        }
        assert forall|k: int| !path_pos(self.files@, path@, k) by {
            if 0 <= k < self.files@.len() {
                assert(self.files@[k].path@ != path@);
            }
        }
        None
    }

    fn find_file_id(&self, id: i64) -> (r: Option<usize>)
        requires
            self.wf(),
        ensures
            match r {
                Some(k) => id_pos(self.files@, id, k as int),
                None => !has_id(self.files@, id),
            },
    {
        let mut i: usize = 0;
        while i < self.files.len()
            invariant
                i <= self.files@.len(),
                forall|k: int| 0 <= k < i ==> (#[trigger] self.files@[k]).id != id,
            decreases self.files@.len() - i,
        {
            if self.files[i].id == id {
                assert(id_pos(self.files@, id, i as int));
                return Some(i);
            }
            i = i + 1;
        }
        assert forall|k: int| !id_pos(self.files@, id, k) by {
            if 0 <= k < self.files@.len() {
                assert(self.files@[k].id != id);
            }
        }
        None
    }

    /// `r` is what `file_lookup` answers for `path`.
    pub open spec fn looked_up(d: Db, path: Seq<char>, r: Option<(i64, Option<i64>, Option<String>)>) -> bool {
        match r {
            Some((id, size, mtime)) => exists|k: int| #[trigger] path_pos(d.files@, path, k)
                && d.files@[k].id == id && d.files@[k].size == size
                && opt_view(d.files@[k].modified_at) == opt_view(mtime),
            None => !has_path(d.files@, path),
        }
    }

    /// The id, size and modification stamp stored for `path`.
    pub fn file_lookup(&self, path: &str) -> (r: Option<(i64, Option<i64>, Option<String>)>)
        requires
            self.wf(),
        ensures
            Db::looked_up(*self, path@, r),
    {
        match self.find_file_path(path) {
            Some(k) => {
                let f = &self.files[k];
                let m = match &f.modified_at {
                    Some(s) => Some(s.clone()),
                    None => None,
                };
                Some((f.id, f.size, m))
            },
            None => None,
        }
    }

    /// Adds a file row. `dir` and `filename` must split `path` at its last
    /// separator and `path` must carry no extended-length prefix; an existing
    /// path is left alone. Returns the new id.
    pub fn file_insert(
        &mut self,
        path: &str,
        dir: &str,
        filename: &str,
        size: Option<i64>,
        modified_at: Option<&str>,
    ) -> (r: Option<i64>)
        requires
            old(self).wf(),
        ensures
            final(self).wf(),
            final(self).metas@ == old(self).metas@,
            final(self).dirs@ == old(self).dirs@,
            final(self).history@ == old(self).history@,
            final(self).failures@ == old(self).failures@,
            r.is_none() <==> (has_path(old(self).files@, path@) || dir@ != parent_spec(path@)
                || filename@ != name_spec(path@) || has_prefix(path@, long_prefix())
                || old(self).next_file_id == i64::MAX),
            r.is_none() ==> final(self).files@ == old(self).files@,
            r matches Some(id) ==> {
                &&& id == old(self).next_file_id
                &&& exists|k: int| 0 <= k < final(self).files@.len()
                    && #[trigger] final(self).files@.remove(k) == old(self).files@
                    && final(self).files@[k].id == id && final(self).files@[k].path@ == path@
                    && final(self).files@[k].size == size
                    && opt_view(final(self).files@[k].modified_at) == opt_str_view(modified_at)
                    && final(self).files@[k].hash.is_none() && final(self).files@[k].meta_id.is_none()
                    && !final(self).files@[k].temporary
            },
    {
        if self.next_file_id == i64::MAX {
            return None;
        }
        let d = str_parent(path);
        let nm = str_name(path);
        if !str_eq(d.as_str(), dir) || !str_eq(nm.as_str(), filename) || starts_with(path, "\\\\?\\") {
            proof {
                reveal_strlit("\\\\?\\");
                assert("\\\\?\\"@ == long_prefix());
            }
            if self.find_file_path(path).is_some() {
                return None;
            }
            return None;
        }
        proof {
            reveal_strlit("\\\\?\\");
            assert("\\\\?\\"@ == long_prefix());
        }
        let mut i: usize = 0;
        while i < self.files.len()
            invariant
                self.wf(),
                i <= self.files@.len(),
                forall|k: int| 0 <= k < i ==> lex_lt((#[trigger] self.files@[k]).path@, path@),
            ensures
                self.wf(),
                i <= self.files@.len(),
                forall|k: int| 0 <= k < i ==> lex_lt((#[trigger] self.files@[k]).path@, path@),
                i < self.files@.len() ==> lex_lt(path@, self.files@[i as int].path@),
            decreases self.files@.len() - i,
        {
            if str_eq(self.files[i].path.as_str(), path) {
                assert(path_pos(self.files@, path@, i as int));
                return None;
            }
            if str_lt(path, self.files[i].path.as_str()) {
                break;
            }
            proof {
                lemma_lex_total(path@, self.files@[i as int].path@);
            }
            i = i + 1;
        }
        let ghost k = i as int;
        let ghost fs = self.files@;
        proof {
            assert forall|j: int| k <= j < fs.len() implies lex_lt(path@, #[trigger] fs[j].path@) by {
                if j > k {
                    lemma_lex_transitive(path@, fs[k].path@, fs[j].path@);
                }
            }
            assert forall|j: int| !path_pos(fs, path@, j) by {
                if 0 <= j < fs.len() {
                    lemma_lex_irreflexive(path@);
                }
            }
        }
        let id = self.next_file_id;
        let m: Option<String> = match modified_at {
            Some(s) => Some(String::from_str(s)),
            None => None,
        };
        let rec = FileRec {
            id,
            path: String::from_str(path),
            dir: String::from_str(dir),
            filename: String::from_str(filename),
            size,
            modified_at: m,
            hash: None,
            meta_id: None,
            temporary: false,
        };
        self.files.insert(i, rec);
        self.next_file_id = id + 1;
        proof {
            let nf = self.files@;
            assert(nf.remove(k) =~= fs);
            assert forall|a: int, b: int| 0 <= a < b < nf.len() implies lex_lt(#[trigger] nf[a].path@, #[trigger] nf[b].path@) by {
                if b < k {
                } else if a < k && b == k {
                } else if a < k && b > k {
                    lemma_lex_transitive(nf[a].path@, path@, nf[b].path@);
                } else if a == k {
                } else {
                    assert(nf[a] == fs[a - 1] && nf[b] == fs[b - 1]);
                }
            }
            assert forall|a: int| 0 <= a < nf.len() implies self.file_ok(#[trigger] nf[a]) by {
                if a < k {
                    assert(nf[a] == fs[a]);
                } else if a > k {
                    assert(nf[a] == fs[a - 1]);
                }
            }
            assert forall|a: int, b: int| 0 <= a < nf.len() && 0 <= b < nf.len() && a != b
                implies #[trigger] nf[a].id != #[trigger] nf[b].id by {
                if a != k && b != k {
                    let a0 = if a < k { a } else { a - 1 };
                    let b0 = if b < k { b } else { b - 1 };
                    assert(nf[a] == fs[a0] && nf[b] == fs[b0]);
                } else if a == k {
                    let b0 = if b < k { b } else { b - 1 };
                    assert(nf[b] == fs[b0]);
                } else {
                    let a0 = if a < k { a } else { a - 1 };
                    assert(nf[a] == fs[a0]);
                }
            }
        }
        Some(id)
    }

    fn find_meta(&self, id: i64) -> (r: Option<usize>)
        requires
            self.wf(),
        ensures
            match r {
                Some(k) => meta_pos(self.metas@, id, k as int),
                None => forall|k: int| !meta_pos(self.metas@, id, k),
            },
    {
        let mut i: usize = 0;
        while i < self.metas.len()
            invariant
                i <= self.metas@.len(),
                forall|k: int| 0 <= k < i ==> (#[trigger] self.metas@[k]).id != id,
            decreases self.metas@.len() - i,
        {
            if self.metas[i].id == id {
                return Some(i);
            }
            i = i + 1;
        }
        assert forall|k: int| !meta_pos(self.metas@, id, k) by {
            if 0 <= k < self.metas@.len() {
                assert(self.metas@[k].id != id);
            }
        }
        None
    }

    /// Whether the content of file row `k` carries `tag`.
    fn row_has_tag(&self, k: usize, tag: &str) -> (r: bool)
        requires
            self.wf(),
            k < self.files@.len(),
        ensures
            r == file_has_tag(self.metas@, self.files@[k as int], tag@),
    {
        match self.files[k].meta_id {
            Some(mid) => match self.find_meta(mid) {
                Some(j) => {
                    let r = has_tag(&self.metas[j].tags, tag);
                    proof {
                        if !r {
                            assert forall|q: int| #[trigger] meta_pos(self.metas@, mid, q) implies !tags_view(self.metas@[q].tags@).contains(tag@) by {
                                assert(q == j as int);
                            }
                        }
                    }
                    r
                },
                None => false,
            },
            None => false,
        }
    }

    fn entry_at(&self, k: usize) -> (e: FileEntry)
        requires
            self.wf(),
            k < self.files@.len(),
        ensures
            lists(e, self.files@[k as int], self.metas@),
    {
        let liked = self.row_has_tag(k, "like");
        let f = &self.files[k];
        FileEntry {
            id: f.id,
            path: f.path.clone(),
            dir: f.dir.clone(),
            filename: f.filename.clone(),
            meta_id: f.meta_id,
            liked,
            temporary: f.temporary,
        }
    }

    /// The files of `dir`, sorted by path.
    pub fn files_by_dir(&self, dir: &str) -> (r: Vec<FileEntry>)
        requires
            self.wf(),
        ensures
            lists_all(r@, dir_files(self.files@, dir@), self.metas@),
    {
        let mut out: Vec<FileEntry> = Vec::new();
        let mut i: usize = 0;
        while i < self.files.len()
            invariant
                self.wf(),
                i <= self.files@.len(),
                lists_all(out@, dir_files(self.files@.subrange(0, i as int), dir@), self.metas@),
            decreases self.files@.len() - i,
        {
            let ghost pre = self.files@.subrange(0, i + 1);
            assert(pre.drop_last() == self.files@.subrange(0, i as int));
            if str_eq(self.files[i].dir.as_str(), dir) {
                let e = self.entry_at(i);
                out.push(e);
            }
            i = i + 1;
        }
        assert(self.files@.subrange(0, self.files@.len() as int) == self.files@);
        out
    }

    /// The directories that hold files, in sorted order.
    pub open spec fn dir_list(&self) -> Seq<Seq<char>> {
        dir_list_of(self.files@)
    }

    /// The directories that hold files, sorted and without repeats.
    pub fn dirs(&self) -> (r: Vec<String>)
        requires
            self.wf(),
        ensures
            strs_view(r@) == self.dir_list(),
            strictly_sorted(strs_view(r@)),
            strs_view(r@).to_set() == dir_set(self.files@),
    {
        let mut out: Vec<String> = Vec::new();
        let mut i: usize = 0;
        assert(strs_view(out@).to_set() =~= Set::empty());
        while i < self.files.len()
            invariant
                i <= self.files@.len(),
                strictly_sorted(strs_view(out@)),
                strs_view(out@).to_set() == dir_set(self.files@.subrange(0, i as int)),
            decreases self.files@.len() - i,
        {
            insert_sorted(&mut out, self.files[i].dir.as_str());
            proof {
                let pre = self.files@.subrange(0, i as int);
                let nxt = self.files@.subrange(0, i + 1);
                assert forall|d: Seq<char>| dir_set(nxt).contains(d) <==> dir_set(pre).insert(self.files@[i as int].dir@).contains(d) by {
                    if dir_set(nxt).contains(d) {
                        let k = choose|k: int| 0 <= k < nxt.len() && (#[trigger] nxt[k]).dir@ == d;
                        if k < i {
                            assert(pre[k] == nxt[k]);
                        }
                    }
                    if dir_set(pre).contains(d) {
                        let k = choose|k: int| 0 <= k < pre.len() && (#[trigger] pre[k]).dir@ == d;
                        assert(nxt[k] == pre[k]);
                    }
                    if d == self.files@[i as int].dir@ {
                        assert(nxt[i as int] == self.files@[i as int]);
                    }
                }
                assert(dir_set(nxt) =~= dir_set(pre).insert(self.files@[i as int].dir@));
            }
            i = i + 1;
        }
        assert(self.files@.subrange(0, self.files@.len() as int) == self.files@);
        proof {
            lemma_dir_list_of(self.files@);
            lemma_sorted_unique(self.dir_list(), strs_view(out@));
        }
        out
    }

    fn remove_row(&mut self, k: usize)
        requires
            old(self).wf(),
            k < old(self).files@.len(),
        ensures
            final(self).wf(),
            final(self).files@ == old(self).files@.remove(k as int),
            final(self).metas@ == old(self).metas@,
            final(self).dirs@ == old(self).dirs@,
            final(self).history@ == old(self).history@,
            final(self).failures@ == old(self).failures@,
            final(self).next_file_id == old(self).next_file_id,
    {
        let ghost fs = self.files@;
        self.files.remove(k);
        proof {
            let nf = self.files@;
            assert forall|a: int, b: int| 0 <= a < b < nf.len() implies lex_lt(#[trigger] nf[a].path@, #[trigger] nf[b].path@) by {
                let a0 = if a < k { a } else { a + 1 };
                let b0 = if b < k { b } else { b + 1 };
                assert(nf[a] == fs[a0] && nf[b] == fs[b0]);
            }
            assert forall|a: int| 0 <= a < nf.len() implies self.file_ok(#[trigger] nf[a]) by {
                let a0 = if a < k { a } else { a + 1 };
                assert(nf[a] == fs[a0]);
            }
            assert forall|a: int, b: int| 0 <= a < nf.len() && 0 <= b < nf.len() && a != b
                implies #[trigger] nf[a].id != #[trigger] nf[b].id by {
                let a0 = if a < k { a } else { a + 1 };
                let b0 = if b < k { b } else { b + 1 };
                assert(nf[a] == fs[a0] && nf[b] == fs[b0]);
            }
        }
    }

    /// Removes the file with path `path`; nothing happens when there is none.
    pub fn remove_file_by_path(&mut self, path: &str)
        requires
            old(self).wf(),
        ensures
            final(self).wf(),
            !has_path(final(self).files@, path@),
            !has_path(old(self).files@, path@) ==> final(self).files@ == old(self).files@,
            has_path(old(self).files@, path@) ==> exists|k: int| #[trigger] path_pos(old(self).files@, path@, k)
                && final(self).files@ == old(self).files@.remove(k),
            final(self).metas@ == old(self).metas@,
            final(self).dirs@ == old(self).dirs@,
            final(self).history@ == old(self).history@,
            final(self).failures@ == old(self).failures@,
    {
        if let Some(k) = self.find_file_path(path) {
            let ghost fs = self.files@;
            self.remove_row(k);
            proof {
                assert forall|j: int| !path_pos(self.files@, path@, j) by {
                    if 0 <= j < self.files@.len() {
                        let j0 = if j < k { j } else { j + 1 };
                        assert(self.files@[j] == fs[j0]);
                        if j0 != k {
                            lemma_lex_total(fs[j0].path@, fs[k as int].path@);
                            lemma_lex_irreflexive(fs[k as int].path@);
                        }
                    }
                }
            }
        }
    }

    /// Removes the file with id `id`; nothing happens when there is none.
    pub fn remove_file_by_id(&mut self, id: i64)
        requires
            old(self).wf(),
        ensures
            final(self).wf(),
            !has_id(final(self).files@, id),
            !has_id(old(self).files@, id) ==> final(self).files@ == old(self).files@,
            has_id(old(self).files@, id) ==> exists|k: int| #[trigger] id_pos(old(self).files@, id, k)
                && final(self).files@ == old(self).files@.remove(k),
            final(self).metas@ == old(self).metas@,
            final(self).dirs@ == old(self).dirs@,
            final(self).history@ == old(self).history@,
    {
        if let Some(k) = self.find_file_id(id) {
            let ghost fs = self.files@;
            self.remove_row(k);
            proof {
                assert forall|j: int| !id_pos(self.files@, id, j) by {
                    if 0 <= j < self.files@.len() {
                        let j0 = if j < k { j } else { j + 1 };
                        assert(self.files@[j] == fs[j0]);
                    }
                }
            }
        }
    }

    /// Replaces file row `k` by a row with the same id and path.
    fn replace_row(&mut self, k: usize, rec: FileRec)
        requires
            old(self).wf(),
            k < old(self).files@.len(),
            rec.id == old(self).files@[k as int].id,
            rec.path@ == old(self).files@[k as int].path@,
            old(self).file_ok(rec),
        ensures
            final(self).wf(),
            final(self).files@ == old(self).files@.update(k as int, rec),
            final(self).metas@ == old(self).metas@,
            final(self).dirs@ == old(self).dirs@,
            final(self).history@ == old(self).history@,
            final(self).failures@ == old(self).failures@,
            final(self).next_file_id == old(self).next_file_id,
            final(self).next_meta_id == old(self).next_meta_id,
    {
        let ghost fs = self.files@;
        self.files.remove(k);
        self.files.insert(k, rec);
        assert(self.files@ =~= fs.update(k as int, rec));
    }

    /// Records a new size and modification stamp; the content hash and its
    /// metadata link are cleared, since the content may have changed.
    pub fn file_update_meta(&mut self, file_id: i64, size: Option<i64>, modified_at: Option<&str>)
        requires
            old(self).wf(),
        ensures
            final(self).wf(),
            final(self).files@.len() == old(self).files@.len(),
            forall|k: int| 0 <= k < old(self).files@.len() ==> {
                let (a, b) = (old(self).files@[k], #[trigger] final(self).files@[k]);
                if a.id == file_id {
                    refreshed_row(a, b, size, opt_str_view(modified_at))
                } else {
                    b == a
                }
            },
            final(self).metas@ == old(self).metas@,
            final(self).dirs@ == old(self).dirs@,
            final(self).history@ == old(self).history@,
            final(self).failures@ == old(self).failures@,
            final(self).next_file_id == old(self).next_file_id,
    {
        if let Some(k) = self.find_file_id(file_id) {
            let f = &self.files[k];
            let m: Option<String> = match modified_at {
                Some(s) => Some(String::from_str(s)),
                None => None,
            };
            let rec = FileRec {
                id: f.id,
                path: f.path.clone(),
                dir: f.dir.clone(),
                filename: f.filename.clone(),
                size,
                modified_at: m,
                hash: None,
                meta_id: None,
                temporary: f.temporary,
            };
            self.replace_row(k, rec);
            proof {
                assert forall|j: int| 0 <= j < old(self).files@.len() && j != k implies old(self).files@[j].id != file_id by {}
            }
        } else {
            assert forall|j: int| 0 <= j < old(self).files@.len() implies old(self).files@[j].id != file_id by {
                assert(!id_pos(old(self).files@, file_id, j));
            }
        }
    }

    /// Marks a file temporary or not.
    pub fn set_temporary(&mut self, file_id: i64, temporary: bool)
        requires
            old(self).wf(),
        ensures
            final(self).wf(),
            final(self).files@.len() == old(self).files@.len(),
            forall|k: int| 0 <= k < old(self).files@.len() ==> {
                let (a, b) = (old(self).files@[k], #[trigger] final(self).files@[k]);
                if a.id == file_id {
                    b == (FileRec { temporary, ..a })
                } else {
                    b == a
                }
            },
            final(self).metas@ == old(self).metas@,
            final(self).dirs@ == old(self).dirs@,
    {
        if let Some(k) = self.find_file_id(file_id) {
            let f = &self.files[k];
            let rec = FileRec {
                id: f.id,
                path: f.path.clone(),
                dir: f.dir.clone(),
                filename: f.filename.clone(),
                size: f.size,
                modified_at: match &f.modified_at { Some(s) => Some(s.clone()), None => None },
                hash: match &f.hash { Some(s) => Some(s.clone()), None => None },
                meta_id: f.meta_id,
                temporary,
            };
            self.replace_row(k, rec);
            proof {
                assert forall|j: int| 0 <= j < old(self).files@.len() && j != k implies old(self).files@[j].id != file_id by {}
            }
        } else {
            assert forall|j: int| 0 <= j < old(self).files@.len() implies old(self).files@[j].id != file_id by {
                assert(!id_pos(old(self).files@, file_id, j));
            }
        }
    }

    fn find_meta_hash(&self, hash: &str) -> (r: Option<usize>)
        requires
            self.wf(),
        ensures
            match r {
                Some(k) => k < self.metas@.len() && self.metas@[k as int].hash@ == hash@,
                None => forall|k: int| 0 <= k < self.metas@.len() ==> (#[trigger] self.metas@[k]).hash@ != hash@,
            },
    {
        let mut i: usize = 0;
        while i < self.metas.len()
            invariant
                i <= self.metas@.len(),
                forall|k: int| 0 <= k < i ==> (#[trigger] self.metas@[k]).hash@ != hash@,
            decreases self.metas@.len() - i,
        {
            if str_eq(self.metas[i].hash.as_str(), hash) {
                return Some(i);
            }
            i = i + 1;
        }
        None
    }

    /// The metadata row for `hash`, created empty when there is none yet.
    /// `None` only when the id space is used up.
    pub fn ensure_meta_for_hash(&mut self, hash: &str) -> (r: Option<i64>)
        requires
            old(self).wf(),
        ensures
            final(self).wf(),
            final(self).files@ == old(self).files@,
            final(self).dirs@ == old(self).dirs@,
            final(self).history@ == old(self).history@,
            final(self).failures@ == old(self).failures@,
            old(self).metas@.len() <= final(self).metas@.len(),
            forall|k: int| 0 <= k < old(self).metas@.len() ==> #[trigger] final(self).metas@[k] == old(self).metas@[k],
            r matches Some(id) ==> meta_index_valid(final(self).metas@, id, hash@),
            r.is_none() ==> final(self).metas@ == old(self).metas@,
            r.is_none() <==> (old(self).next_meta_id == i64::MAX
                && forall|k: int| 0 <= k < old(self).metas@.len() ==> (#[trigger] old(self).metas@[k]).hash@ != hash@),
            Db::meta_row_for(*old(self), *final(self), hash@),
            final(self).next_file_id == old(self).next_file_id,
    {
        if let Some(k) = self.find_meta_hash(hash) {
            let id = self.metas[k].id;
            assert(meta_pos(self.metas@, id, k as int));
            return Some(id);
        }
        if self.next_meta_id == i64::MAX {
            return None;
        }
        let id = self.next_meta_id;
        let rec = MetaRec {
            id,
            hash: String::from_str(hash),
            width: None,
            height: None,
            format: None,
            generator_info: None,
            tags: Vec::new(),
        };
        let ghost ms = self.metas@;
        self.metas.push(rec);
        self.next_meta_id = id + 1;
        proof {
            let nm = self.metas@;
            assert(nm[ms.len() as int] == rec);
            assert forall|a: int| 0 <= a < self.files@.len() implies self.file_ok(#[trigger] self.files@[a]) by {
                let f = self.files@[a];
                if let Some(m) = f.meta_id {
                    let h = f.hash->0@;
                    let w = choose|w: int| 0 <= w < ms.len() && #[trigger] ms[w].id == m && ms[w].hash@ == h;
                    assert(nm[w] == ms[w]);
                }
            }
            assert(meta_index_valid(nm, id, hash@)) by {
                assert(nm[ms.len() as int].id == id);
            }
            assert forall|i: int, j: int| 0 <= i < nm.len() && 0 <= j < nm.len() && i != j
                implies #[trigger] nm[i].hash@ != #[trigger] nm[j].hash@ by {
                if i < ms.len() && j < ms.len() {
                    assert(nm[i] == ms[i] && nm[j] == ms[j]);
                } else if i < ms.len() {
                    assert(nm[i] == ms[i]);
                } else if j < ms.len() {
                    assert(nm[j] == ms[j]);
                }
            }
            assert(!exists|k: int| 0 <= k < ms.len() && ms[k].hash@ == hash@);
        }
        Some(id)
    }

    /// `new` holds the metadata row for `hash`: the rows of `old` when one of
    /// them has that hash, else those rows and one new empty row for it with
    /// the next id (or the same rows when no id is left).
    pub open spec fn meta_row_for(old: Db, new: Db, hash: Seq<char>) -> bool {
        if exists|k: int| 0 <= k < old.metas@.len() && (#[trigger] old.metas@[k]).hash@ == hash {
            new.metas@ == old.metas@ && new.next_meta_id == old.next_meta_id
        } else if old.next_meta_id < i64::MAX {
            &&& new.metas@.len() == old.metas@.len() + 1
            &&& forall|k: int| 0 <= k < old.metas@.len() ==> #[trigger] new.metas@[k] == old.metas@[k]
            &&& new.metas@.last().hash@ == hash
            &&& new.metas@.last().id == old.next_meta_id
            &&& new.metas@.last().width.is_none() && new.metas@.last().height.is_none()
            &&& new.metas@.last().format.is_none() && new.metas@.last().generator_info.is_none()
            &&& new.metas@.last().tags@.len() == 0
            &&& new.next_meta_id == old.next_meta_id + 1
        } else {
            new.metas@ == old.metas@ && new.next_meta_id == old.next_meta_id
        }
    }

    /// Replaces metadata row `k` by one with the same id and hash.
    fn replace_meta(&mut self, k: usize, rec: MetaRec)
        requires
            old(self).wf(),
            k < old(self).metas@.len(),
            rec.id == old(self).metas@[k as int].id,
            rec.hash@ == old(self).metas@[k as int].hash@,
        ensures
            final(self).wf(),
            final(self).metas@ == old(self).metas@.update(k as int, rec),
            final(self).files@ == old(self).files@,
            final(self).dirs@ == old(self).dirs@,
            final(self).history@ == old(self).history@,
            final(self).failures@ == old(self).failures@,
            final(self).next_file_id == old(self).next_file_id,
            final(self).next_meta_id == old(self).next_meta_id,
    {
        let ghost ms = self.metas@;
        self.metas.remove(k);
        self.metas.insert(k, rec);
        assert(self.metas@ =~= ms.update(k as int, rec));
        proof {
            let nm = self.metas@;
            assert forall|a: int| 0 <= a < self.files@.len() implies self.file_ok(#[trigger] self.files@[a]) by {
                let f = self.files@[a];
                if let Some(m) = f.meta_id {
                    let h = f.hash->0@;
                    let w = choose|w: int| 0 <= w < ms.len() && #[trigger] ms[w].id == m && ms[w].hash@ == h;
                    assert(nm[w].id == m && nm[w].hash@ == h);
                }
            }
        }
    }

    /// Sets the content hash of a file and links it to the metadata row for
    /// that hash, creating the row when needed. Returns whether it linked.
    pub fn link_file_to_hash(&mut self, file_id: i64, hash: &str) -> (r: bool)
        requires
            old(self).wf(),
        ensures
            final(self).wf(),
            r == (has_id(old(self).files@, file_id) && (old(self).next_meta_id < i64::MAX
                || exists|k: int| 0 <= k < old(self).metas@.len() && (#[trigger] old(self).metas@[k]).hash@ == hash@)),
            r ==> exists|k: int| #[trigger] id_pos(final(self).files@, file_id, k)
                && linked(final(self).files@[k], final(self).metas@, hash@),
            final(self).files@.len() == old(self).files@.len(),
            forall|k: int| 0 <= k < old(self).files@.len() && (#[trigger] old(self).files@[k]).id != file_id
                ==> final(self).files@[k] == old(self).files@[k],
            forall|k: int| 0 <= k < old(self).metas@.len() ==> #[trigger] final(self).metas@[k] == old(self).metas@[k],
            has_id(old(self).files@, file_id) ==> Db::meta_row_for(*old(self), *final(self), hash@),
            !has_id(old(self).files@, file_id) ==> final(self).metas@ == old(self).metas@,
            forall|k: int| 0 <= k < old(self).files@.len() && (#[trigger] old(self).files@[k]).id == file_id ==> {
                let (a, b) = (old(self).files@[k], final(self).files@[k]);
                &&& b.id == a.id && b.path == a.path && b.dir == a.dir && b.filename == a.filename
                &&& b.size == a.size && b.modified_at == a.modified_at && b.temporary == a.temporary
            },
            final(self).dirs@ == old(self).dirs@,
            final(self).history@ == old(self).history@,
            final(self).failures@ == old(self).failures@,
    {
        let k = match self.find_file_id(file_id) {
            Some(k) => k,
            None => return false,
        };
        assert(id_pos(old(self).files@, file_id, k as int));
        let mid = match self.ensure_meta_for_hash(hash) {
            Some(m) => m,
            None => {
                assert(!exists|q: int| 0 <= q < old(self).metas@.len() && (#[trigger] old(self).metas@[q]).hash@ == hash@);
                return false;
            },
        };
        let f = &self.files[k];
        let rec = FileRec {
            id: f.id,
            path: f.path.clone(),
            dir: f.dir.clone(),
            filename: f.filename.clone(),
            size: f.size,
            modified_at: match &f.modified_at { Some(s) => Some(s.clone()), None => None },
            hash: Some(String::from_str(hash)),
            meta_id: Some(mid),
            temporary: f.temporary,
        };
        self.replace_row(k, rec);
        assert(id_pos(self.files@, file_id, k as int));
        proof {
            assert forall|j: int| 0 <= j < old(self).files@.len() && (#[trigger] old(self).files@[j]).id != file_id
                implies self.files@[j] == old(self).files@[j] by {}
        }
        true
    }

    /// `r` holds the tags of metadata row `meta_id`, or nothing when there is no such row.
    pub open spec fn tags_got(d: Db, meta_id: i64, r: Seq<String>) -> bool {
        &&& forall|k: int| #[trigger] meta_pos(d.metas@, meta_id, k) ==> tags_view(r) == tags_view(d.metas@[k].tags@)
        &&& (forall|k: int| !#[trigger] meta_pos(d.metas@, meta_id, k)) ==> r.len() == 0
    }

    /// `new` is `old` with the tags of row `meta_id` replaced by `tags`.
    pub open spec fn tags_put(old: Db, new: Db, meta_id: i64, tags: Vec<String>) -> bool {
        &&& new.files@ == old.files@
        &&& new.metas@.len() == old.metas@.len()
        &&& forall|k: int| 0 <= k < old.metas@.len() ==> {
            let (a, b) = (old.metas@[k], #[trigger] new.metas@[k]);
            if a.id == meta_id {
                b == (MetaRec { tags, ..a })
            } else {
                b == a
            }
        }
        &&& new.history@ == old.history@
        &&& new.dirs@ == old.dirs@
    }

    /// The tags of metadata row `meta_id`; empty when there is no such row.
    pub fn get_tags(&self, meta_id: i64) -> (r: Vec<String>)
        requires
            self.wf(),
        ensures
            Db::tags_got(*self, meta_id, r@),
    {
        match self.find_meta(meta_id) {
            Some(k) => {
                let out = copy_tags(&self.metas[k].tags);
                proof {
                    assert forall|q: int| #[trigger] meta_pos(self.metas@, meta_id, q) implies q == k as int by {}
                }
                out
            },
            None => Vec::new(),
        }
    }

    /// Replaces the tags of metadata row `meta_id`; nothing happens when there is no such row.
    pub fn set_tags(&mut self, meta_id: i64, tags: Vec<String>)
        requires
            old(self).wf(),
        ensures
            final(self).wf(),
            Db::tags_put(*old(self), *final(self), meta_id, tags),
    {
        match self.find_meta(meta_id) {
            Some(k) => {
                let m = &self.metas[k];
                let rec = MetaRec {
                    id: m.id,
                    hash: m.hash.clone(),
                    width: m.width,
                    height: m.height,
                    format: match &m.format { Some(s) => Some(s.clone()), None => None },
                    generator_info: match &m.generator_info { Some(s) => Some(s.clone()), None => None },
                    tags,
                };
                self.replace_meta(k, rec);
                proof {
                    assert forall|j: int| 0 <= j < old(self).metas@.len() && j != k implies old(self).metas@[j].id != meta_id by {}
                }
            },
            None => {
                assert forall|j: int| 0 <= j < old(self).metas@.len() implies old(self).metas@[j].id != meta_id by {
                    assert(!meta_pos(old(self).metas@, meta_id, j));
                }
            },
        }
    }

    /// Metadata row `k` belongs to the file with id `file_id`.
    pub open spec fn meta_link(&self, file_id: i64, k: int) -> bool {
        0 <= k < self.metas@.len() && exists|j: int| #[trigger] id_pos(self.files@, file_id, j)
            && self.files@[j].meta_id == Some(self.metas@[k].id)
    }

    /// The position of the metadata row of file `file_id`, if it has one.
    pub open spec fn meta_of(&self, file_id: i64) -> Option<int> {
        if exists|k: int| self.meta_link(file_id, k) {
            Some(choose|k: int| self.meta_link(file_id, k))
        } else {
            None
        }
    }

    fn meta_index_of_file(&self, file_id: i64) -> (r: Option<usize>)
        requires
            self.wf(),
        ensures
            match r {
                Some(k) => self.meta_of(file_id) == Some(k as int),
                None => self.meta_of(file_id).is_none(),
            },
    {
        let j = match self.find_file_id(file_id) {
            Some(j) => j,
            None => {
                assert forall|k: int| !self.meta_link(file_id, k) by {}
                return None;
            },
        };
        let mid = match self.files[j].meta_id {
            Some(m) => m,
            None => {
                assert forall|k: int| !self.meta_link(file_id, k) by {
                    assert forall|j2: int| #[trigger] id_pos(self.files@, file_id, j2) implies j2 == j as int by {}
                }
                return None;
            },
        };
        match self.find_meta(mid) {
            Some(k) => {
                assert(self.meta_link(file_id, k as int));
                proof {
                    let c = choose|q: int| self.meta_link(file_id, q);
                    let j2 = choose|j2: int| #[trigger] id_pos(self.files@, file_id, j2)
                        && self.files@[j2].meta_id == Some(self.metas@[c].id);
                    assert(j2 == j as int);
                    assert(c == k as int);
                }
                Some(k)
            },
            None => {
                proof {
                    let f = self.files@[j as int];
                    assert(self.file_ok(f));
                    let w = choose|w: int| 0 <= w < self.metas@.len() && #[trigger] self.metas@[w].id == mid && self.metas@[w].hash@ == f.hash->0@;
                    assert(meta_pos(self.metas@, mid, w));
                }
                None
            },
        }
    }

    /// What `toggle_like` does to the catalogue.
    pub open spec fn like_toggled(old: Db, new: Db, file_id: i64, r: bool) -> bool {
        &&& new.files@ == old.files@
        &&& new.dirs@ == old.dirs@
        &&& new.failures@ == old.failures@
        &&& new.metas@.len() == old.metas@.len()
        &&& match old.meta_of(file_id) {
            None => !r && new.metas@ == old.metas@ && new.history@ == old.history@,
            Some(k) => {
                &&& r == !tags_view(old.metas@[k].tags@).contains("like"@)
                &&& tags_view(new.metas@[k].tags@) == toggled(tags_view(old.metas@[k].tags@), "like"@)
                &&& new.metas@[k].id == old.metas@[k].id
                &&& new.metas@[k].hash == old.metas@[k].hash
                &&& new.metas@[k].width == old.metas@[k].width && new.metas@[k].height == old.metas@[k].height
                &&& new.metas@[k].format == old.metas@[k].format
                &&& new.metas@[k].generator_info == old.metas@[k].generator_info
                &&& forall|j: int| 0 <= j < old.metas@.len() && j != k ==> #[trigger] new.metas@[j] == old.metas@[j]
                &&& new.history@ == old.history@.push(HistoryEvent {
                    file_id,
                    action: if r { Action::Like } else { Action::Unlike },
                })
            },
        }
    }

    /// Toggles the `like` tag of a file's content and appends a `like` or
    /// `unlike` history row. Returns whether the file is liked now; a file
    /// without metadata is left alone and reported not liked.
    pub fn toggle_like(&mut self, file_id: i64) -> (r: bool)
        requires
            old(self).wf(),
        ensures
            final(self).wf(),
            final(self).files@ == old(self).files@,
            final(self).dirs@ == old(self).dirs@,
            final(self).failures@ == old(self).failures@,
            final(self).metas@.len() == old(self).metas@.len(),
            Db::like_toggled(*old(self), *final(self), file_id, r),
    {
        match self.meta_index_of_file(file_id) {
            Some(k) => {
                let (tags, now) = toggle_tag(&self.metas[k].tags, "like");
                let m = &self.metas[k];
                let rec = MetaRec {
                    id: m.id,
                    hash: m.hash.clone(),
                    width: m.width,
                    height: m.height,
                    format: match &m.format { Some(s) => Some(s.clone()), None => None },
                    generator_info: match &m.generator_info { Some(s) => Some(s.clone()), None => None },
                    tags,
                };
                self.replace_meta(k, rec);
                let action = if now { Action::Like } else { Action::Unlike };
                self.history.push(HistoryEvent { file_id, action });
                now
            },
            None => false,
        }
    }

    /// Toggles tag `c2`..`c8` on a file's content; returns whether the file
    /// is in collection `c` now. A file without metadata, or a collection
    /// outside 2..=8, is left alone and reported false.
    pub fn toggle_collection(&mut self, file_id: i64, c: u8) -> (r: bool)
        requires
            old(self).wf(),
        ensures
            final(self).wf(),
            final(self).files@ == old(self).files@,
            final(self).dirs@ == old(self).dirs@,
            final(self).history@ == old(self).history@,
            final(self).metas@.len() == old(self).metas@.len(),
            match old(self).meta_of(file_id) {
                Some(k) if 2 <= c <= 8 => {
                    &&& r == !tags_view(old(self).metas@[k].tags@).contains(collection_tag_spec(c))
                    &&& tags_view(final(self).metas@[k].tags@) == toggled(tags_view(old(self).metas@[k].tags@), collection_tag_spec(c))
                    &&& final(self).metas@[k].id == old(self).metas@[k].id
                    &&& final(self).metas@[k].hash == old(self).metas@[k].hash
                    &&& final(self).metas@[k].width == old(self).metas@[k].width
                    &&& final(self).metas@[k].height == old(self).metas@[k].height
                    &&& final(self).metas@[k].format == old(self).metas@[k].format
                    &&& final(self).metas@[k].generator_info == old(self).metas@[k].generator_info
                    &&& forall|j: int| 0 <= j < old(self).metas@.len() && j != k ==> #[trigger] final(self).metas@[j] == old(self).metas@[j]
                },
                _ => !r && final(self).metas@ == old(self).metas@,
            },
    {
        if c < 2 || c > 8 {
            return false;
        }
        match self.meta_index_of_file(file_id) {
            Some(k) => {
                let tag = collection_tag(c);
                let (tags, now) = toggle_tag(&self.metas[k].tags, tag.as_str());
                let m = &self.metas[k];
                let rec = MetaRec {
                    id: m.id,
                    hash: m.hash.clone(),
                    width: m.width,
                    height: m.height,
                    format: match &m.format { Some(s) => Some(s.clone()), None => None },
                    generator_info: match &m.generator_info { Some(s) => Some(s.clone()), None => None },
                    tags,
                };
                self.replace_meta(k, rec);
                now
            },
            None => false,
        }
    }

    /// Appends a `view` history row for a file.
    pub fn record_view(&mut self, file_id: i64)
        requires
            old(self).wf(),
        ensures
            final(self).wf(),
            final(self).files@ == old(self).files@,
            final(self).metas@ == old(self).metas@,
            final(self).dirs@ == old(self).dirs@,
            final(self).history@ == old(self).history@.push(HistoryEvent { file_id, action: Action::View }),
    {
        self.history.push(HistoryEvent { file_id, action: Action::View });
    }

    fn row_in_collection(&self, k: usize, c: u8) -> (r: bool)
        requires
            self.wf(),
            k < self.files@.len(),
        ensures
            r == in_collection(self.metas@, self.files@[k as int], c),
    {
        if c == 0 {
            !self.files[k].temporary
        } else if c == 1 {
            self.files[k].temporary
        } else if c <= 9 {
            let tag = collection_tag(c);
            self.row_has_tag(k, tag.as_str())
        } else {
            false
        }
    }

    /// The files of collection `c`, sorted by path.
    pub fn files_by_collection(&self, c: u8) -> (r: Vec<FileEntry>)
        requires
            self.wf(),
        ensures
            lists_all(r@, coll_files(self.files@, self.metas@, c), self.metas@),
    {
        let mut out: Vec<FileEntry> = Vec::new();
        let mut i: usize = 0;
        while i < self.files.len()
            invariant
                self.wf(),
                i <= self.files@.len(),
                lists_all(out@, coll_files(self.files@.subrange(0, i as int), self.metas@, c), self.metas@),
            decreases self.files@.len() - i,
        {
            let ghost pre = self.files@.subrange(0, i + 1);
            assert(pre.drop_last() == self.files@.subrange(0, i as int));
            if self.row_in_collection(i, c) {
                let e = self.entry_at(i);
                out.push(e);
            }
            i = i + 1;
        }
        assert(self.files@.subrange(0, self.files@.len() as int) == self.files@);
        out
    }

    /// Whether file `file_id` is in collection `c`.
    pub fn is_in_collection(&self, file_id: i64, c: u8) -> (r: bool)
        requires
            self.wf(),
        ensures
            r == exists|k: int| #[trigger] id_pos(self.files@, file_id, k) && in_collection(self.metas@, self.files@[k], c),
    {
        match self.find_file_id(file_id) {
            Some(k) => {
                let r = self.row_in_collection(k, c);
                proof {
                    assert forall|j: int| #[trigger] id_pos(self.files@, file_id, j) implies j == k as int by {}
                }
                r
            },
            None => false,
        }
    }

    /// The file at position `pick` (wrapping) of collection `c`; `None` for an
    /// empty collection. Callers pass a random `pick` for a random member.
    pub fn random_in_collection(&self, c: u8, pick: u64) -> (r: Option<FileEntry>)
        requires
            self.wf(),
        ensures
            ({
                let l = coll_files(self.files@, self.metas@, c);
                match r {
                    None => l.len() == 0,
                    Some(e) => l.len() > 0 && lists(e, l[(pick as int) % (l.len() as int)], self.metas@),
                }
            }),
    {
        let mut all = self.files_by_collection(c);
        let n = all.len();
        if n == 0 {
            return None;
        }
        let idx = (pick % (n as u64)) as usize;
        Some(all.swap_remove(idx))
    }

    /// A random file among all files: position `pick` (wrapping) in path order.
    pub fn random_file(&self, pick: u64) -> (r: Option<FileEntry>)
        requires
            self.wf(),
        ensures
            match r {
                None => self.files@.len() == 0,
                Some(e) => self.files@.len() > 0 && lists(e, self.files@[(pick as int) % (self.files@.len() as int)], self.metas@),
            },
    {
        let n = self.files.len();
        if n == 0 {
            return None;
        }
        let idx = (pick % (n as u64)) as usize;
        Some(self.entry_at(idx))
    }

    /// A random liked file: position `pick` (wrapping) among the liked files.
    pub fn random_liked(&self, pick: u64) -> (r: Option<FileEntry>)
        requires
            self.wf(),
        ensures
            ({
                let l = coll_files(self.files@, self.metas@, 9);
                match r {
                    None => l.len() == 0,
                    Some(e) => l.len() > 0 && lists(e, l[(pick as int) % (l.len() as int)], self.metas@),
                }
            }),
    {
        self.random_in_collection(9, pick)
    }

    /// `r` is what `next_missing(layer, pick)` answers.
    pub open spec fn missing_pick(d: Db, layer: Layer, pick: u64, r: Option<(i64, String)>) -> bool {
        let l = candidates(d.files@, d.metas@, d.failures@, layer);
        match r {
            None => l.len() == 0,
            Some((id, path)) => l.len() > 0 && l[(pick as int) % (l.len() as int)].id == id
                && l[(pick as int) % (l.len() as int)].path@ == path@,
        }
    }

    fn row_missing(&self, k: usize, layer: Layer) -> (r: bool)
        requires
            self.wf(),
            k < self.files@.len(),
        ensures
            r == layer_missing(self.metas@, self.files@[k as int], layer),
    {
        let f = &self.files[k];
        match layer {
            Layer::Hash => f.hash.is_none(),
            _ => {
                let mid = match f.meta_id {
                    Some(m) => m,
                    None => return false,
                };
                let j = match self.find_meta(mid) {
                    Some(j) => j,
                    None => return false,
                };
                let lacks = match layer {
                    Layer::Exif => self.metas[j].width.is_none(),
                    _ => self.metas[j].generator_info.is_none(),
                };
                proof {
                    assert forall|q: int| #[trigger] meta_pos(self.metas@, mid, q) implies q == j as int by {}
                }
                if !lacks {
                    return false;
                }
                let dot = crate::text::rfind(f.path.as_str(), '.');
                if dot.is_none() {
                    return false;
                }
                let e = ext_of(f.path.as_str());
                match layer {
                    Layer::Exif => str_eq(e.as_str(), "jpg") || str_eq(e.as_str(), "jpeg") || str_eq(e.as_str(), "png")
                        || str_eq(e.as_str(), "webp") || str_eq(e.as_str(), "gif") || str_eq(e.as_str(), "bmp")
                        || str_eq(e.as_str(), "tiff"),
                    _ => str_eq(e.as_str(), "png"),
                }
            },
        }
    }

    fn row_failed(&self, id: i64, layer: Layer) -> (r: bool)
        requires
            self.wf(),
        ensures
            r == failed(self.failures@, id, layer),
    {
        let mut i: usize = 0;
        while i < self.failures.len()
            invariant
                i <= self.failures@.len(),
                forall|q: int| 0 <= q < i ==> !((#[trigger] self.failures@[q]).file_id == id && self.failures@[q].layer == layer),
            decreases self.failures@.len() - i,
        {
            if self.failures[i].file_id == id && self.failures[i].layer == layer {
                return true;
            }
            i = i + 1;
        }
        false
    }

    /// A file that still lacks layer `layer` and has not failed it:
    /// position `pick` (wrapping) among those files, with its path.
    pub fn next_missing(&self, layer: Layer, pick: u64) -> (r: Option<(i64, String)>)
        requires
            self.wf(),
        ensures
            Db::missing_pick(*self, layer, pick, r),
    {
        let mut ids: Vec<usize> = Vec::new();
        let mut i: usize = 0;
        while i < self.files.len()
            invariant
                self.wf(),
                i <= self.files@.len(),
                ids@.len() == candidates(self.files@.subrange(0, i as int), self.metas@, self.failures@, layer).len(),
                forall|q: int| 0 <= q < ids@.len() ==> #[trigger] ids@[q] < self.files@.len()
                    && self.files@[ids@[q] as int] == candidates(self.files@.subrange(0, i as int), self.metas@, self.failures@, layer)[q],
            decreases self.files@.len() - i,
        {
            let ghost pre = self.files@.subrange(0, i + 1);
            assert(pre.drop_last() == self.files@.subrange(0, i as int));
            if self.row_missing(i, layer) && !self.row_failed(self.files[i].id, layer) {
                ids.push(i);
            }
            i = i + 1;
        }
        assert(self.files@.subrange(0, self.files@.len() as int) == self.files@);
        let n = ids.len();
        if n == 0 {
            return None;
        }
        let q = (pick % (n as u64)) as usize;
        let k = ids[q];
        Some((self.files[k].id, self.files[k].path.clone()))
    }

    /// Writes a failure row for (file, layer), replacing an earlier one.
    pub fn record_failure(&mut self, file_id: i64, layer: Layer, error: &str)
        requires
            old(self).wf(),
        ensures
            final(self).wf(),
            final(self).files@ == old(self).files@,
            final(self).metas@ == old(self).metas@,
            final(self).dirs@ == old(self).dirs@,
            failed(final(self).failures@, file_id, layer),
            forall|id: i64, l: Layer| !(id == file_id && l == layer)
                ==> failed(final(self).failures@, id, l) == failed(old(self).failures@, id, l),
    {
        let row = JobFailure { file_id, layer, error: String::from_str(error) };
        let mut i: usize = 0;
        while i < self.failures.len()
            invariant
                *self == *old(self),
                old(self).wf(),
                row.file_id == file_id,
                row.layer == layer,
                i <= self.failures@.len(),
            decreases self.failures@.len() - i,
        {
            if self.failures[i].file_id == file_id && self.failures[i].layer == layer {
                let ghost fl = self.failures@;
                self.failures.remove(i);
                self.failures.insert(i, row);
                proof {
                    let nf = self.failures@;
                    assert(nf =~= fl.update(i as int, row));
                    assert(nf[i as int] == row);
                    assert forall|id: i64, l: Layer| !(id == file_id && l == layer)
                        implies failed(nf, id, l) == failed(fl, id, l) by {
                        if failed(fl, id, l) {
                            let w = choose|w: int| 0 <= w < fl.len() && (#[trigger] fl[w]).file_id == id && fl[w].layer == l;
                            assert(nf[w] == fl[w]);
                        }
                        if failed(nf, id, l) {
                            let w = choose|w: int| 0 <= w < nf.len() && (#[trigger] nf[w]).file_id == id && nf[w].layer == l;
                            if w != i as int {
                                assert(nf[w] == fl[w]);
                            }
                        }
                    }
                    assert(nf[i as int].file_id == file_id && nf[i as int].layer == layer);
                    assert(failed(nf, file_id, layer));
                    assert(self.files@ == old(self).files@);
                    assert(self.metas@ == old(self).metas@);
                    assert(self.dirs@ == old(self).dirs@);
                }
                return;
            }
            i = i + 1;
        }
        let ghost fl = self.failures@;
        self.failures.push(row);
        proof {
            let nf = self.failures@;
            assert(nf[fl.len() as int] == row);
            assert forall|id: i64, l: Layer| !(id == file_id && l == layer)
                implies failed(nf, id, l) == failed(fl, id, l) by {
                if failed(fl, id, l) {
                    let w = choose|w: int| 0 <= w < fl.len() && (#[trigger] fl[w]).file_id == id && fl[w].layer == l;
                    assert(nf[w] == fl[w]);
                }
                if failed(nf, id, l) {
                    let w = choose|w: int| 0 <= w < nf.len() && (#[trigger] nf[w]).file_id == id && nf[w].layer == l;
                    if w < fl.len() {
                        assert(nf[w] == fl[w]);
                    }
                }
            }
        }
    }

    /// Records decoded dimensions and a format tag on a file's content.
    /// A file without metadata is left alone.
    pub fn set_dimensions(&mut self, file_id: i64, width: u32, height: u32, format: &str)
        requires
            old(self).wf(),
        ensures
            final(self).wf(),
            final(self).files@ == old(self).files@,
            final(self).metas@.len() == old(self).metas@.len(),
            match old(self).meta_of(file_id) {
                None => final(self).metas@ == old(self).metas@,
                Some(k) => {
                    &&& final(self).metas@[k].width == Some(width)
                    &&& final(self).metas@[k].height == Some(height)
                    &&& opt_view(final(self).metas@[k].format) == Some(format@)
                    &&& final(self).metas@[k].id == old(self).metas@[k].id
                    &&& final(self).metas@[k].hash@ == old(self).metas@[k].hash@
                    &&& final(self).metas@[k].generator_info == old(self).metas@[k].generator_info
                    &&& tags_view(final(self).metas@[k].tags@) == tags_view(old(self).metas@[k].tags@)
                    &&& forall|j: int| 0 <= j < old(self).metas@.len() && j != k ==> #[trigger] final(self).metas@[j] == old(self).metas@[j]
                },
            },
    {
        if let Some(k) = self.meta_index_of_file(file_id) {
            let m = &self.metas[k];
            let rec = MetaRec {
                id: m.id,
                hash: m.hash.clone(),
                width: Some(width),
                height: Some(height),
                format: Some(String::from_str(format)),
                generator_info: match &m.generator_info { Some(s) => Some(s.clone()), None => None },
                tags: copy_tags(&m.tags),
            };
            self.replace_meta(k, rec);
        }
    }

    /// Records the generator text on a file's content. A file without
    /// metadata is left alone.
    pub fn set_generator_info(&mut self, file_id: i64, text: &str)
        requires
            old(self).wf(),
        ensures
            final(self).wf(),
            final(self).files@ == old(self).files@,
            final(self).metas@.len() == old(self).metas@.len(),
            match old(self).meta_of(file_id) {
                None => final(self).metas@ == old(self).metas@,
                Some(k) => {
                    &&& opt_view(final(self).metas@[k].generator_info) == Some(text@)
                    &&& final(self).metas@[k].id == old(self).metas@[k].id
                    &&& final(self).metas@[k].width == old(self).metas@[k].width
                    &&& final(self).metas@[k].height == old(self).metas@[k].height
                    &&& final(self).metas@[k].hash == old(self).metas@[k].hash
                    &&& final(self).metas@[k].format == old(self).metas@[k].format
                    &&& tags_view(final(self).metas@[k].tags@) == tags_view(old(self).metas@[k].tags@)
                    &&& forall|j: int| 0 <= j < old(self).metas@.len() && j != k ==> #[trigger] final(self).metas@[j] == old(self).metas@[j]
                },
            },
    {
        if let Some(k) = self.meta_index_of_file(file_id) {
            let m = &self.metas[k];
            let rec = MetaRec {
                id: m.id,
                hash: m.hash.clone(),
                width: m.width,
                height: m.height,
                format: match &m.format { Some(s) => Some(s.clone()), None => None },
                generator_info: Some(String::from_str(text)),
                tags: copy_tags(&m.tags),
            };
            self.replace_meta(k, rec);
        }
    }

    /// The number of files.
    pub fn file_count(&self) -> (r: usize)
        ensures
            r == self.files@.len(),
    {
        self.files.len()
    }

    /// Counts of files, directories, hashed files, files with dimensions and failures.
    pub fn collection_stats(&self) -> (r: CollectionStats)
        requires
            self.wf(),
            self.files@.len() < i64::MAX,
            self.failures@.len() < i64::MAX,
        ensures
            r.total_files == self.files@.len(),
            r.total_dirs == self.dir_list().len(),
            r.hashed == hashed_count(self.files@),
            r.with_exif == dims_count(self.files@, self.metas@),
            r.failed == self.failures@.len(),
    {
        let dirs = self.dirs();
        proof {
            lemma_dir_count_bound(self.files@);
        }
        let mut hashed: i64 = 0;
        let mut dims: i64 = 0;
        let mut i: usize = 0;
        while i < self.files.len()
            invariant
                self.wf(),
                i <= self.files@.len(),
                self.files@.len() < i64::MAX,
                hashed == hashed_count(self.files@.subrange(0, i as int)),
                dims == dims_count(self.files@.subrange(0, i as int), self.metas@),
                hashed <= i,
                dims <= i,
            decreases self.files@.len() - i,
        {
            let ghost pre = self.files@.subrange(0, i + 1);
            assert(pre.drop_last() == self.files@.subrange(0, i as int));
            if self.files[i].hash.is_some() {
                hashed = hashed + 1;
            }
            let has = match self.files[i].meta_id {
                Some(mid) => match self.find_meta(mid) {
                    Some(j) => {
                        proof {
                            assert forall|q: int| #[trigger] meta_pos(self.metas@, mid, q) implies q == j as int by {}
                        }
                        self.metas[j].width.is_some()
                    },
                    None => false,
                },
                None => false,
            };
            if has {
                dims = dims + 1;
            }
            i = i + 1;
        }
        assert(self.files@.subrange(0, self.files@.len() as int) == self.files@);
        CollectionStats {
            total_files: self.files.len() as i64,
            total_dirs: dirs.len() as i64,
            hashed,
            with_exif: dims,
            failed: self.failures.len() as i64,
        }
    }

    /// The number of files in collection `c` and the sum of their sizes,
    /// added in path order; (0, 0) when a running sum leaves the `i64` range.
    pub fn count_and_size_of_collection(&self, c: u8) -> (r: (i64, i64))
        requires
            self.wf(),
            self.files@.len() < i64::MAX,
        ensures
            ({
                let l = coll_files(self.files@, self.metas@, c);
                if sums_fit(l) {
                    r == (l.len() as i64, size_sum(l) as i64)
                } else {
                    r == (0i64, 0i64)
                }
            }),
    {
        proof {
            lemma_coll_len(self.files@, self.metas@, c);
        }
        let mut count: i64 = 0;
        let mut total: i64 = 0;
        let mut i: usize = 0;
        while i < self.files.len()
            invariant
                self.wf(),
                i <= self.files@.len(),
                self.files@.len() < i64::MAX,
                count == coll_files(self.files@.subrange(0, i as int), self.metas@, c).len(),
                count <= i,
                total == size_sum(coll_files(self.files@.subrange(0, i as int), self.metas@, c)),
                sums_fit(coll_files(self.files@.subrange(0, i as int), self.metas@, c)),
            decreases self.files@.len() - i,
        {
            let ghost pre = self.files@.subrange(0, i + 1);
            assert(pre.drop_last() == self.files@.subrange(0, i as int));
            if self.row_in_collection(i, c) {
                let add: i64 = match self.files[i].size {
                    Some(n) => n,
                    None => 0,
                };
                let ghost before = coll_files(self.files@.subrange(0, i as int), self.metas@, c);
                let ghost after = before.push(self.files@[i as int]);
                assert(after.drop_last() == before);
                match total.checked_add(add) {
                    Some(t) => {
                        total = t;
                        count = count + 1;
                        proof {
                            assert forall|j: int| 0 <= j <= after.len() implies
                                i64::MIN <= #[trigger] size_sum(after.subrange(0, j)) <= i64::MAX by {
                                if j < after.len() {
                                    assert(after.subrange(0, j) == before.subrange(0, j));
                                } else {
                                    assert(after.subrange(0, j) == after);
                                }
                            }
                        }
                    },
                    None => {
                        proof {
                            assert(coll_files(pre, self.metas@, c) == after);
                            assert(size_sum(after) == size_sum(before) + add);
                            assert(after.subrange(0, after.len() as int) == after);
                            assert(!(i64::MIN <= size_sum(after.subrange(0, after.len() as int)) <= i64::MAX));
                            assert(!sums_fit(after));
                            lemma_fit_prefix(self.files@, self.metas@, c, i as int + 1);
                        }
                        return (0, 0);
                    },
                }
            }
            i = i + 1;
        }
        assert(self.files@.subrange(0, self.files@.len() as int) == self.files@);
        (count, total)
    }

    /// Marks every file of directory `dir` temporary.
    pub fn mark_dir_temporary(&mut self, dir: &str)
        requires
            old(self).wf(),
        ensures
            final(self).wf(),
            final(self).files@.len() == old(self).files@.len(),
            forall|k: int| 0 <= k < old(self).files@.len() ==> {
                let (a, b) = (old(self).files@[k], #[trigger] final(self).files@[k]);
                if a.dir@ == dir@ {
                    b == (FileRec { temporary: true, ..a })
                } else {
                    b == a
                }
            },
            final(self).metas@ == old(self).metas@,
            final(self).dirs@ == old(self).dirs@,
            final(self).history@ == old(self).history@,
    {
        let mut i: usize = 0;
        while i < self.files.len()
            invariant
                self.wf(),
                i <= self.files@.len(),
                self.files@.len() == old(self).files@.len(),
                self.metas@ == old(self).metas@,
                self.dirs@ == old(self).dirs@,
                self.history@ == old(self).history@,
                forall|k: int| 0 <= k < old(self).files@.len() ==> {
                    let (a, b) = (old(self).files@[k], #[trigger] self.files@[k]);
                    if k < i && a.dir@ == dir@ {
                        b == (FileRec { temporary: true, ..a })
                    } else {
                        b == a
                    }
                },
            decreases self.files@.len() - i,
        {
            if str_eq(self.files[i].dir.as_str(), dir) {
                let f = &self.files[i];
                let rec = FileRec {
                    id: f.id,
                    path: f.path.clone(),
                    dir: f.dir.clone(),
                    filename: f.filename.clone(),
                    size: f.size,
                    modified_at: match &f.modified_at { Some(s) => Some(s.clone()), None => None },
                    hash: match &f.hash { Some(s) => Some(s.clone()), None => None },
                    meta_id: f.meta_id,
                    temporary: true,
                };
                self.replace_row(i, rec);
            }
            i = i + 1;
        }
    }

    /// The file modified last (the first of equals in path order); a file
    /// without a stamp only when none has one.
    pub fn newest_file(&self) -> (r: Option<FileEntry>)
        requires
            self.wf(),
        ensures
            match r {
                None => self.files@.len() == 0,
                Some(e) => self.files@.len() > 0 && lists(e, self.files@[newest_pos(self.files@)], self.metas@),
            },
    {
        let mut best: Option<usize> = None;
        let mut i: usize = 0;
        while i < self.files.len()
            invariant
                self.wf(),
                i <= self.files@.len(),
                match best {
                    None => i == 0,
                    Some(b) => b < i && b as int == newest_pos(self.files@.subrange(0, i as int)),
                },
            decreases self.files@.len() - i,
        {
            let ghost pre = self.files@.subrange(0, i + 1);
            assert(pre.drop_last() =~= self.files@.subrange(0, i as int));
            let take = match best {
                None => true,
                Some(b) => {
                    assert(pre.drop_last()[b as int] == self.files@[b as int]);
                    match (&self.files[i].modified_at, &self.files[b].modified_at) {
                        (Some(mx), Some(my)) => str_lt(my.as_str(), mx.as_str()),
                        (Some(_), None) => true,
                        _ => false,
                    }
                },
            };
            let ghost prev = best;
            if take {
                best = Some(i);
            }
            proof {
                if prev.is_none() {
                    assert(pre.drop_last().len() == 0);
                    assert(newest_pos(pre.drop_last()) == -1);
                    assert(newest_pos(pre) == i as int);
                }
                assert(best.is_some());
            }
            i = i + 1;
        }
        assert(self.files@.subrange(0, self.files@.len() as int) =~= self.files@);
        match best {
            Some(b) => Some(self.entry_at(b)),
            None => None,
        }
    }

    /// The file liked most recently that is still liked.
    pub fn latest_liked(&self) -> (r: Option<FileEntry>)
        requires
            self.wf(),
        ensures
            ({
                let p = latest_like_pos(*self, self.history@);
                match r {
                    None => p < 0,
                    Some(e) => p >= 0 && exists|k: int| #[trigger] id_pos(self.files@, self.history@[p].file_id, k)
                        && lists(e, self.files@[k], self.metas@),
                }
            }),
    {
        let mut i: usize = self.history.len();
        assert(self.history@.subrange(0, i as int) =~= self.history@);
        while i > 0
            invariant
                self.wf(),
                i <= self.history@.len(),
                latest_like_pos(*self, self.history@) == latest_like_pos(*self, self.history@.subrange(0, i as int)),
            decreases i,
        {
            let ghost pre = self.history@.subrange(0, i as int);
            assert(pre.drop_last() =~= self.history@.subrange(0, i - 1));
            let ev = &self.history[i - 1];
            assert(pre.last() == *ev);
            if ev.action == Action::Like {
                if let Some(k) = self.find_file_id(ev.file_id) {
                    if self.row_has_tag(k, "like") {
                        proof {
                            assert(id_pos(self.files@, ev.file_id, k as int));
                            lemma_latest_like_pos(*self, self.history@);
                        }
                        return Some(self.entry_at(k));
                    } else {
                        proof {
                            assert forall|q: int| #[trigger] id_pos(self.files@, ev.file_id, q) implies q == k as int by {}
                        }
                    }
                }
            }
            i = i - 1;
        }
        None
    }

    /// The full record of a file and of its content's metadata; `None`
    /// when there is no such file.
    pub fn get_metadata(&self, file_id: i64) -> (r: Option<FileMeta>)
        requires
            self.wf(),
        ensures
            r.is_none() == !has_id(self.files@, file_id),
            r matches Some(m) ==> exists|k: int| #[trigger] id_pos(self.files@, file_id, k) && {
                let f = self.files@[k];
                &&& m.filename@ == f.filename@ && m.path@ == f.path@ && m.dir@ == f.dir@
                &&& m.size == f.size && opt_view(m.modified_at) == opt_view(f.modified_at)
                &&& opt_view(m.hash_sha512) == opt_view(f.hash)
                &&& match self.meta_of(file_id) {
                    Some(q) => {
                        let c = self.metas@[q];
                        &&& m.width == c.width && m.height == c.height
                        &&& opt_view(m.format) == opt_view(c.format)
                        &&& opt_view(m.pnginfo) == opt_view(c.generator_info)
                        &&& tags_view(m.tags@) == tags_view(c.tags@)
                    },
                    None => m.width.is_none() && m.height.is_none() && m.format.is_none()
                        && m.pnginfo.is_none() && m.tags@.len() == 0,
                }
            },
    {
        let k = match self.find_file_id(file_id) {
            Some(k) => k,
            None => return None,
        };
        let f = &self.files[k];
        let mut m = FileMeta {
            filename: f.filename.clone(),
            path: f.path.clone(),
            dir: f.dir.clone(),
            size: f.size,
            modified_at: match &f.modified_at { Some(s) => Some(s.clone()), None => None },
            hash_sha512: match &f.hash { Some(s) => Some(s.clone()), None => None },
            width: None,
            height: None,
            format: None,
            tags: Vec::new(),
            pnginfo: None,
        };
        if let Some(q) = self.meta_index_of_file(file_id) {
            let c = &self.metas[q];
            m.width = c.width;
            m.height = c.height;
            m.format = match &c.format { Some(s) => Some(s.clone()), None => None };
            m.pnginfo = match &c.generator_info { Some(s) => Some(s.clone()), None => None };
            m.tags = copy_tags(&c.tags);
        }
        assert(id_pos(self.files@, file_id, k as int));
        Some(m)
    }

    /// The watched directories with their recursion flags, in row order.
    pub fn watched_dirs(&self) -> (r: Vec<(String, bool)>)
        requires
            self.wf(),
        ensures
            pairs_view(r@) == watched_view(self.dirs@),
    {
        let mut out: Vec<(String, bool)> = Vec::new();
        let mut i: usize = 0;
        while i < self.dirs.len()
            invariant
                i <= self.dirs@.len(),
                pairs_view(out@) == watched_view(self.dirs@.subrange(0, i as int)),
            decreases self.dirs@.len() - i,
        {
            let d = &self.dirs[i];
            assert(self.dirs@.subrange(0, i + 1).drop_last() == self.dirs@.subrange(0, i as int));
            if d.is_watched {
                let e = (d.path.clone(), d.recursive);
                let ghost before = out@;
                out.push(e);
                assert(out@.drop_last() == before);
            }
            i = i + 1;
        }
        assert(self.dirs@.subrange(0, self.dirs@.len() as int) == self.dirs@);
        out
    }
}

/// The tag list as character sequences.
pub open spec fn tags_view(t: Seq<String>) -> Seq<Seq<char>> {
    t.map_values(|s: String| s@)
}

/// The position of the metadata row with id `id`.
pub open spec fn meta_pos(m: Seq<MetaRec>, id: i64, k: int) -> bool {
    0 <= k < m.len() && m[k].id == id
}

/// Whether the metadata row `id` carries `tag`.
pub open spec fn meta_has_tag(m: Seq<MetaRec>, id: i64, tag: Seq<char>) -> bool {
    exists|k: int| #[trigger] meta_pos(m, id, k) && tags_view(m[k].tags@).contains(tag)
}

/// Whether a file's content carries `tag`; false for a file without metadata.
pub open spec fn file_has_tag(m: Seq<MetaRec>, f: FileRec, tag: Seq<char>) -> bool {
    match f.meta_id {
        Some(id) => meta_has_tag(m, id, tag),
        None => false,
    }
}

/// `e` lists the file row `f`.
pub open spec fn lists(e: FileEntry, f: FileRec, m: Seq<MetaRec>) -> bool {
    &&& e.id == f.id
    &&& e.path@ == f.path@
    &&& e.dir@ == f.dir@
    &&& e.filename@ == f.filename@
    &&& e.meta_id == f.meta_id
    &&& e.temporary == f.temporary
    &&& e.liked == file_has_tag(m, f, "like"@)
}

/// The rows of directory `d`, in path order.
pub open spec fn dir_files(f: Seq<FileRec>, d: Seq<char>) -> Seq<FileRec>
    decreases f.len(),
{
    if f.len() == 0 {
        Seq::empty()
    } else if f.last().dir@ == d {
        dir_files(f.drop_last(), d).push(f.last())
    } else {
        dir_files(f.drop_last(), d)
    }
}

/// `e` lists the rows `f` one for one.
pub open spec fn lists_all(e: Seq<FileEntry>, f: Seq<FileRec>, m: Seq<MetaRec>) -> bool {
    e.len() == f.len() && forall|i: int| 0 <= i < e.len() ==> lists(#[trigger] e[i], f[i], m)
}

/// Whether `tags` holds `tag`.
pub fn has_tag(tags: &Vec<String>, tag: &str) -> (r: bool)
    ensures
        r == tags_view(tags@).contains(tag@),
{
    let mut i: usize = 0;
    while i < tags.len()
        invariant
            i <= tags@.len(),
            forall|k: int| 0 <= k < i ==> (#[trigger] tags@[k])@ != tag@,
        decreases tags@.len() - i,
    {
        if str_eq(tags[i].as_str(), tag) {
            assert(tags_view(tags@)[i as int] == tag@);
            return true;
        }
        i = i + 1;
    }
    proof {
        if tags_view(tags@).contains(tag@) {
            let k = choose|k: int| 0 <= k < tags_view(tags@).len() && tags_view(tags@)[k] == tag@;
            assert(tags@[k]@ == tag@);
        }
    }
    false
}

/// The texts of a list of strings.
pub open spec fn strs_view(v: Seq<String>) -> Seq<Seq<char>> {
    v.map_values(|s: String| s@)
}

/// Strictly increasing, hence free of repeats.
pub open spec fn strictly_sorted(v: Seq<Seq<char>>) -> bool {
    forall|i: int, j: int| 0 <= i < j < v.len() ==> lex_lt(#[trigger] v[i], #[trigger] v[j])
}

/// The directories that hold at least one file.
pub open spec fn dir_set(f: Seq<FileRec>) -> Set<Seq<char>> {
    Set::new(|d: Seq<char>| exists|k: int| 0 <= k < f.len() && (#[trigger] f[k]).dir@ == d)
}

/// Two strictly sorted lists with the same elements are the same list.
pub proof fn lemma_sorted_unique(a: Seq<Seq<char>>, b: Seq<Seq<char>>)
    requires
        strictly_sorted(a),
        strictly_sorted(b),
        a.to_set() == b.to_set(),
    ensures
        a == b,
    decreases a.len(),
{
    if a.len() == 0 {
        if b.len() > 0 {
            assert(b.to_set().contains(b[0]));
        }
        assert(b.len() == 0);
    } else if b.len() == 0 {
        assert(a.to_set().contains(a[0]));
    } else {
        assert(a.to_set().contains(a[0]));
        assert(b.to_set().contains(b[0]));
        let i = choose|i: int| 0 <= i < b.len() && b[i] == a[0];
        let j = choose|j: int| 0 <= j < a.len() && a[j] == b[0];
        if i > 0 && j > 0 {
            lemma_lex_total(a[0], b[0]);
        }
        if i > 0 && j == 0 {
            lemma_lex_irreflexive(a[0]);
        }
        if i == 0 && j > 0 {
            lemma_lex_irreflexive(b[0]);
        }
        assert(a[0] == b[0]);
        let (a1, b1) = (a.drop_first(), b.drop_first());
        assert forall|x: Seq<char>| a1.to_set().contains(x) <==> b1.to_set().contains(x) by {
            if a1.to_set().contains(x) {
                let p = choose|p: int| 0 <= p < a1.len() && a1[p] == x;
                assert(a[p + 1] == x);
                assert(lex_lt(a[0], x));
                lemma_lex_irreflexive(x);
                assert(b.to_set().contains(x));
                let q = choose|q: int| 0 <= q < b.len() && b[q] == x;
                assert(q != 0);
                assert(b1[q - 1] == x);
            }
            if b1.to_set().contains(x) {
                let p = choose|p: int| 0 <= p < b1.len() && b1[p] == x;
                assert(b[p + 1] == x);
                assert(lex_lt(b[0], x));
                lemma_lex_irreflexive(x);
                assert(a.to_set().contains(x));
                let q = choose|q: int| 0 <= q < a.len() && a[q] == x;
                assert(q != 0);
                assert(a1[q - 1] == x);
            }
        }
        assert(a1.to_set() =~= b1.to_set());
        lemma_sorted_unique(a1, b1);
        assert(a == seq![a[0]] + a1);
        assert(b == seq![b[0]] + b1);
    }
}

/// `x` put into its place in a sorted list, unless it is there already.
pub open spec fn sorted_insert(l: Seq<Seq<char>>, x: Seq<char>) -> Seq<Seq<char>>
    decreases l.len(),
{
    if l.len() == 0 {
        seq![x]
    } else if l[0] == x {
        l
    } else if lex_lt(x, l[0]) {
        seq![x] + l
    } else {
        seq![l[0]] + sorted_insert(l.drop_first(), x)
    }
}

/// The directories of the files, sorted and without repeats.
pub open spec fn dir_list_of(f: Seq<FileRec>) -> Seq<Seq<char>>
    decreases f.len(),
{
    if f.len() == 0 {
        Seq::empty()
    } else {
        sorted_insert(dir_list_of(f.drop_last()), f.last().dir@)
    }
}

pub proof fn lemma_sorted_insert(l: Seq<Seq<char>>, x: Seq<char>)
    requires
        strictly_sorted(l),
    ensures
        strictly_sorted(sorted_insert(l, x)),
        sorted_insert(l, x).to_set() == l.to_set().insert(x),
    decreases l.len(),
{
    let r = sorted_insert(l, x);
    if l.len() == 0 {
        assert(r.to_set() =~= l.to_set().insert(x)) by {
            assert forall|y: Seq<char>| r.to_set().contains(y) <==> l.to_set().insert(x).contains(y) by {
                if r.to_set().contains(y) {
                    let j = choose|j: int| 0 <= j < r.len() && r[j] == y;
                }
                if y == x {
                    assert(r[0] == x);
                }
            }
        }
    } else if l[0] == x {
        assert(l.to_set().contains(x));
        assert(l.to_set().insert(x) =~= l.to_set());
    } else if lex_lt(x, l[0]) {
        assert forall|a: int, b: int| 0 <= a < b < r.len() implies lex_lt(#[trigger] r[a], #[trigger] r[b]) by {
            if a == 0 && b > 1 {
                lemma_lex_transitive(x, l[0], l[b - 1]);
            }
        }
        assert forall|y: Seq<char>| r.to_set().contains(y) <==> l.to_set().insert(x).contains(y) by {
            if r.to_set().contains(y) {
                let j = choose|j: int| 0 <= j < r.len() && r[j] == y;
                if j > 0 {
                    assert(l[j - 1] == y);
                }
            }
            if l.to_set().contains(y) {
                let j = choose|j: int| 0 <= j < l.len() && l[j] == y;
                assert(r[j + 1] == y);
            }
            if y == x {
                assert(r[0] == x);
            }
        }
        assert(r.to_set() =~= l.to_set().insert(x));
    } else {
        lemma_lex_total(x, l[0]);
        let rest = l.drop_first();
        let t = sorted_insert(rest, x);
        lemma_sorted_insert(rest, x);
        assert(r == seq![l[0]] + t);
        assert forall|j: int| 0 <= j < t.len() implies lex_lt(l[0], #[trigger] t[j]) by {
            assert(t.to_set().contains(t[j]));
            if t[j] != x {
                let q = choose|q: int| 0 <= q < rest.len() && rest[q] == t[j];
                assert(l[q + 1] == t[j]);
            }
        }
        assert forall|a: int, b: int| 0 <= a < b < r.len() implies lex_lt(#[trigger] r[a], #[trigger] r[b]) by {
            if a == 0 {
                assert(r[b] == t[b - 1]);
            } else {
                assert(r[a] == t[a - 1] && r[b] == t[b - 1]);
            }
        }
        assert forall|y: Seq<char>| r.to_set().contains(y) <==> l.to_set().insert(x).contains(y) by {
            if r.to_set().contains(y) {
                let j = choose|j: int| 0 <= j < r.len() && r[j] == y;
                if j == 0 {
                    assert(l[0] == y);
                } else {
                    assert(r[j] == t[j - 1]);
                    assert(t.to_set().contains(y));
                    if y != x {
                        let q = choose|q: int| 0 <= q < rest.len() && rest[q] == y;
                        assert(l[q + 1] == y);
                    }
                }
            }
            if l.to_set().contains(y) {
                let j = choose|j: int| 0 <= j < l.len() && l[j] == y;
                if j == 0 {
                    assert(r[0] == y);
                } else {
                    assert(rest[j - 1] == y);
                    assert(rest.to_set().contains(y));
                    assert(t.to_set().contains(y));
                    let q = choose|q: int| 0 <= q < t.len() && t[q] == y;
                    assert(r[q + 1] == y);
                }
            }
            if y == x {
                assert(t.to_set().contains(x));
                let q = choose|q: int| 0 <= q < t.len() && t[q] == y;
                assert(r[q + 1] == y);
            }
        }
        assert(r.to_set() =~= l.to_set().insert(x));
    }
}

pub proof fn lemma_dir_list_of(f: Seq<FileRec>)
    ensures
        strictly_sorted(dir_list_of(f)),
        dir_list_of(f).to_set() == dir_set(f),
    decreases f.len(),
{
    if f.len() == 0 {
        assert(dir_set(f) =~= Set::empty());
        assert(dir_list_of(f).to_set() =~= Set::empty());
    } else {
        let pre = f.drop_last();
        lemma_dir_list_of(pre);
        lemma_sorted_insert(dir_list_of(pre), f.last().dir@);
        assert forall|d: Seq<char>| dir_set(f).contains(d) <==> dir_set(pre).insert(f.last().dir@).contains(d) by {
            if dir_set(f).contains(d) {
                let k = choose|k: int| 0 <= k < f.len() && (#[trigger] f[k]).dir@ == d;
                if k < f.len() - 1 {
                    assert(pre[k] == f[k]);
                }
            }
            if dir_set(pre).contains(d) {
                let k = choose|k: int| 0 <= k < pre.len() && (#[trigger] pre[k]).dir@ == d;
                assert(f[k] == pre[k]);
            }
            if d == f.last().dir@ {
                assert(f[f.len() - 1] == f.last());
            }
        }
        assert(dir_set(f) =~= dir_set(pre).insert(f.last().dir@));
    }
}

/// Adds `s` to a strictly sorted list unless it is there already.
pub fn insert_sorted(v: &mut Vec<String>, s: &str)
    requires
        strictly_sorted(strs_view(old(v)@)),
    ensures
        strictly_sorted(strs_view(final(v)@)),
        strs_view(final(v)@).to_set() == strs_view(old(v)@).to_set().insert(s@),
{
    let ghost v0 = strs_view(v@);
    let mut i: usize = 0;
    while i < v.len()
        invariant
            v@ == old(v)@,
            v0 == strs_view(v@),
            strictly_sorted(v0),
            i <= v@.len(),
            forall|k: int| 0 <= k < i ==> lex_lt(#[trigger] v0[k], s@),
        ensures
            v@ == old(v)@,
            i <= v@.len(),
            forall|k: int| 0 <= k < i ==> lex_lt(#[trigger] v0[k], s@),
            i < v@.len() ==> lex_lt(s@, v0[i as int]) || v0[i as int] == s@,
        decreases v@.len() - i,
    {
        if !str_lt(v[i].as_str(), s) {
            proof {
                lemma_lex_total(v0[i as int], s@);
            }
            break;
        }
        i = i + 1;
    }
    if i < v.len() && str_eq(v[i].as_str(), s) {
        assert(v0[i as int] == s@);
        assert(v0.to_set().insert(s@) =~= v0.to_set());
        return;
    }
    v.insert(i, String::from_str(s));
    proof {
        let nv = strs_view(v@);
        let k = i as int;
        assert(nv =~= v0.insert(k, s@));
        assert forall|j: int| k <= j < v0.len() implies lex_lt(s@, #[trigger] v0[j]) by {
            if j > k {
                lemma_lex_transitive(s@, v0[k], v0[j]);
            }
        }
        assert forall|a: int, b: int| 0 <= a < b < nv.len() implies lex_lt(#[trigger] nv[a], #[trigger] nv[b]) by {
            if a < k && b > k {
                lemma_lex_transitive(nv[a], s@, nv[b]);
            }
        }
        assert forall|x: Seq<char>| nv.to_set().contains(x) <==> v0.to_set().insert(s@).contains(x) by {
            if nv.to_set().contains(x) {
                let j = choose|j: int| 0 <= j < nv.len() && nv[j] == x;
                if j < k {
                    assert(v0[j] == x);
                } else if j > k {
                    assert(v0[j - 1] == x);
                }
            }
            if v0.to_set().contains(x) {
                let j = choose|j: int| 0 <= j < v0.len() && v0[j] == x;
                if j < k {
                    assert(nv[j] == x);
                } else {
                    assert(nv[j + 1] == x);
                }
            }
            if x == s@ {
                assert(nv[k] == x);
            }
        }
        assert(nv.to_set() =~= v0.to_set().insert(s@));
    }
}

/// `t` with every copy of `x` taken out.
pub open spec fn without(t: Seq<Seq<char>>, x: Seq<char>) -> Seq<Seq<char>>
    decreases t.len(),
{
    if t.len() == 0 {
        Seq::empty()
    } else if t.last() == x {
        without(t.drop_last(), x)
    } else {
        without(t.drop_last(), x).push(t.last())
    }
}

/// `t` with `x` taken out where it is present, and appended where it is not.
pub open spec fn toggled(t: Seq<Seq<char>>, x: Seq<char>) -> Seq<Seq<char>> {
    if t.contains(x) {
        without(t, x)
    } else {
        t.push(x)
    }
}

pub proof fn lemma_without(t: Seq<Seq<char>>, x: Seq<char>)
    ensures
        without(t, x).to_set() == t.to_set().remove(x),
        !without(t, x).contains(x),
    decreases t.len(),
{
    if t.len() > 0 {
        let p = t.drop_last();
        lemma_without(p, x);
        assert(t == p.push(t.last()));
        assert(t.to_set() == p.to_set().insert(t.last())) by {
            p.lemma_push_to_set_commute(t.last());
        }
        if t.last() == x {
            assert(t.to_set().remove(x) =~= p.to_set().remove(x));
        } else {
            let w = without(p, x);
            assert(w.push(t.last()).to_set() == w.to_set().insert(t.last())) by {
                w.lemma_push_to_set_commute(t.last());
            }
            assert(t.to_set().remove(x) =~= p.to_set().remove(x).insert(t.last()));
            assert(!w.push(t.last()).contains(x)) by {
                if w.push(t.last()).contains(x) {
                    let j = choose|j: int| 0 <= j < w.push(t.last()).len() && w.push(t.last())[j] == x;
                    if j < w.len() {
                        assert(w[j] == x);
                    }
                }
            }
        }
    } else {
        assert(t.to_set() =~= Set::empty());
        assert(without(t, x).to_set() =~= Set::empty());
    }
}

/// Toggling the same tag twice leaves the set of tags as it was.
pub proof fn lemma_toggle_twice(t: Seq<Seq<char>>, x: Seq<char>)
    ensures
        toggled(toggled(t, x), x).to_set() == t.to_set(),
{
    lemma_without(t, x);
    if t.contains(x) {
        let w = without(t, x);
        w.lemma_push_to_set_commute(x);
        assert(t.to_set().contains(x));
        assert(w.to_set().insert(x) =~= t.to_set());
    } else {
        let p = t.push(x);
        assert(p.contains(x)) by {
            assert(p[t.len() as int] == x);
        }
        lemma_without(p, x);
        t.lemma_push_to_set_commute(x);
        assert(!t.to_set().contains(x));
        assert(t.to_set().insert(x).remove(x) =~= t.to_set());
    }
}

/// The tag that stands for a collection: `c2`..`c8`, and `like` for 9.
pub open spec fn collection_tag_spec(c: u8) -> Seq<char> {
    if c == 9 {
        "like"@
    } else if 2 <= c <= 8 {
        seq!['c', digit_of(c)]
    } else {
        Seq::empty()
    }
}

pub open spec fn digit_of(c: u8) -> char {
    if c == 2 { '2' } else if c == 3 { '3' } else if c == 4 { '4' } else if c == 5 { '5' }
    else if c == 6 { '6' } else if c == 7 { '7' } else { '8' }
}

/// The tag that stands for collection `c`; empty for a collection that no tag defines.
pub fn collection_tag(c: u8) -> (r: String)
    ensures
        r@ == collection_tag_spec(c),
{
    if c == 9 {
        String::from_str("like")
    } else if 2 <= c && c <= 8 {
        let d = if c == 2 { '2' } else if c == 3 { '3' } else if c == 4 { '4' } else if c == 5 { '5' }
            else if c == 6 { '6' } else if c == 7 { '7' } else { '8' };
        let mut r = String::new();
        crate::text::push_char(&mut r, 'c');
        crate::text::push_char(&mut r, d);
        r
    } else {
        String::new()
    }
}

/// `tags` with `tag` toggled, and whether `tag` is now present.
pub fn toggle_tag(tags: &Vec<String>, tag: &str) -> (r: (Vec<String>, bool))
    ensures
        tags_view(r.0@) == toggled(tags_view(tags@), tag@),
        r.1 == !tags_view(tags@).contains(tag@),
{
    let present = has_tag(tags, tag);
    let mut out: Vec<String> = Vec::new();
    let mut i: usize = 0;
    while i < tags.len()
        invariant
            i <= tags@.len(),
            tags_view(out@) == without(tags_view(tags@.subrange(0, i as int)), tag@),
        decreases tags@.len() - i,
    {
        let ghost pre = tags_view(tags@.subrange(0, i + 1));
        assert(pre.drop_last() == tags_view(tags@.subrange(0, i as int)));
        assert(pre.last() == tags@[i as int]@);
        if !str_eq(tags[i].as_str(), tag) {
            let c = tags[i].clone();
            out.push(c);
            assert(tags_view(out@) == tags_view(out@.drop_last()).push(c@));
        } else {
            assert(tags_view(out@) == without(pre, tag@));
        }
        i = i + 1;
    }
    assert(tags@.subrange(0, tags@.len() as int) == tags@);
    if present {
        (out, false)
    } else {
        let mut all: Vec<String> = Vec::new();
        let mut j: usize = 0;
        while j < tags.len()
            invariant
                j <= tags@.len(),
                tags_view(all@) == tags_view(tags@.subrange(0, j as int)),
            decreases tags@.len() - j,
        {
            let c = tags[j].clone();
            all.push(c);
            assert(tags_view(all@) == tags_view(all@.drop_last()).push(c@));
            assert(tags_view(tags@.subrange(0, j + 1)) == tags_view(tags@.subrange(0, j as int)).push(c@));
            j = j + 1;
        }
        let t = String::from_str(tag);
        all.push(t);
        assert(tags_view(all@) == tags_view(all@.drop_last()).push(t@));
        (all, true)
    }
}

/// The file carries hash `h` and points to a metadata row whose hash is `h`.
pub open spec fn linked(f: FileRec, m: Seq<MetaRec>, h: Seq<char>) -> bool {
    &&& (f.hash matches Some(x) && x@ == h)
    &&& (f.meta_id matches Some(id) && meta_index_valid(m, id, h))
}

/// Liking a file with metadata twice leaves its set of tags as it was, the
/// two answers are opposite, and exactly two history rows are appended: one
/// `like` and one `unlike`, in the order of the answers.
pub proof fn law_toggle_like_twice(d0: Db, d1: Db, d2: Db, file_id: i64, r1: bool, r2: bool)
    requires
        d0.wf(),
        d0.meta_of(file_id).is_some(),
        Db::like_toggled(d0, d1, file_id, r1),
        Db::like_toggled(d1, d2, file_id, r2),
    ensures
        r2 == !r1,
        ({
            let k = d0.meta_of(file_id)->0;
            tags_view(d2.metas@[k].tags@).to_set() == tags_view(d0.metas@[k].tags@).to_set()
        }),
        d2.history@ == d0.history@.push(HistoryEvent {
            file_id,
            action: if r1 { Action::Like } else { Action::Unlike },
        }).push(HistoryEvent { file_id, action: if r1 { Action::Unlike } else { Action::Like } }),
{
    let k = d0.meta_of(file_id)->0;
    assert forall|q: int| d1.meta_link(file_id, q) <==> d0.meta_link(file_id, q) by {
        if 0 <= q < d0.metas@.len() && q != k {
            assert(d1.metas@[q] == d0.metas@[q]);
        }
    }
    assert(d1.meta_of(file_id) == d0.meta_of(file_id));
    let t0 = tags_view(d0.metas@[k].tags@);
    lemma_toggle_twice(t0, "like"@);
    lemma_without(t0, "like"@);
    if !t0.contains("like"@) {
        assert(t0.push("like"@)[t0.len() as int] == "like"@);
    }
}

/// Writing back the tags just read changes no tag: every metadata row keeps
/// its fields and the same tags.
pub proof fn law_set_tags_of_get_tags(d0: Db, d1: Db, meta_id: i64, got: Vec<String>)
    requires
        d0.wf(),
        Db::tags_got(d0, meta_id, got@),
        Db::tags_put(d0, d1, meta_id, got),
    ensures
        d1.files@ == d0.files@,
        d1.metas@.len() == d0.metas@.len(),
        forall|k: int| 0 <= k < d0.metas@.len() ==> {
            let (a, b) = (d0.metas@[k], #[trigger] d1.metas@[k]);
            &&& tags_view(b.tags@) == tags_view(a.tags@)
            &&& b.id == a.id && b.hash == a.hash && b.width == a.width && b.height == a.height
            &&& b.format == a.format && b.generator_info == a.generator_info
        },
{
    assert forall|k: int| 0 <= k < d0.metas@.len() implies tags_view((#[trigger] d1.metas@[k]).tags@) == tags_view(d0.metas@[k].tags@) by {
        if d0.metas@[k].id == meta_id {
            assert(meta_pos(d0.metas@, meta_id, k));
        }
    }
}

/// Whether a file belongs to collection `c`: 0 all kept files, 1 the
/// temporary ones, 2..=8 and 9 the files whose content carries the tag.
pub open spec fn in_collection(m: Seq<MetaRec>, f: FileRec, c: u8) -> bool {
    if c == 0 {
        !f.temporary
    } else if c == 1 {
        f.temporary
    } else if c <= 9 {
        file_has_tag(m, f, collection_tag_spec(c))
    } else {
        false
    }
}

/// The files of collection `c`, in path order.
pub open spec fn coll_files(f: Seq<FileRec>, m: Seq<MetaRec>, c: u8) -> Seq<FileRec>
    decreases f.len(),
{
    if f.len() == 0 {
        Seq::empty()
    } else if in_collection(m, f.last(), c) {
        coll_files(f.drop_last(), m, c).push(f.last())
    } else {
        coll_files(f.drop_last(), m, c)
    }
}

/// The extensions whose dimensions the dimension layer reads.
pub open spec fn dims_ext(e: Seq<char>) -> bool {
    e == "jpg"@ || e == "jpeg"@ || e == "png"@ || e == "webp"@ || e == "gif"@ || e == "bmp"@ || e == "tiff"@
}

/// Whether a (file, layer) pair is in the failure ledger.
pub open spec fn failed(fl: Seq<JobFailure>, id: i64, l: Layer) -> bool {
    exists|i: int| 0 <= i < fl.len() && (#[trigger] fl[i]).file_id == id && fl[i].layer == l
}

/// Whether the metadata row `id` still lacks what layer `l` writes.
pub open spec fn meta_lacks(m: Seq<MetaRec>, id: i64, l: Layer) -> bool {
    exists|k: int| #[trigger] meta_pos(m, id, k) && match l {
        Layer::Exif => m[k].width.is_none(),
        _ => m[k].generator_info.is_none(),
    }
}

/// Whether layer `l` still has to run on file `f`, by its own rules alone.
pub open spec fn layer_missing(m: Seq<MetaRec>, f: FileRec, l: Layer) -> bool {
    match l {
        Layer::Hash => f.hash.is_none(),
        Layer::Exif => (f.meta_id matches Some(id) && meta_lacks(m, id, l))
            && last_index(f.path@, '.') >= 0 && dims_ext(lower_of(ext_part(f.path@))),
        Layer::AiBasic => (f.meta_id matches Some(id) && meta_lacks(m, id, l))
            && last_index(f.path@, '.') >= 0 && lower_of(ext_part(f.path@)) == "png"@,
    }
}

/// The files that a worker may pick for layer `l`, in path order.
pub open spec fn candidates(f: Seq<FileRec>, m: Seq<MetaRec>, fl: Seq<JobFailure>, l: Layer) -> Seq<FileRec>
    decreases f.len(),
{
    if f.len() == 0 {
        Seq::empty()
    } else if layer_missing(m, f.last(), l) && !failed(fl, f.last().id, l) {
        candidates(f.drop_last(), m, fl, l).push(f.last())
    } else {
        candidates(f.drop_last(), m, fl, l)
    }
}

pub proof fn lemma_candidates(f: Seq<FileRec>, m: Seq<MetaRec>, fl: Seq<JobFailure>, l: Layer)
    ensures
        forall|i: int| 0 <= i < candidates(f, m, fl, l).len() ==> {
            let c = #[trigger] candidates(f, m, fl, l)[i];
            layer_missing(m, c, l) && !failed(fl, c.id, l)
        },
    decreases f.len(),
{
    if f.len() > 0 {
        lemma_candidates(f.drop_last(), m, fl, l);
    }
}

/// What a worker is handed for a layer has not failed that layer and still
/// lacks what the layer writes.
pub proof fn law_next_missing_eligible(d: Db, layer: Layer, pick: u64, r: Option<(i64, String)>)
    requires
        d.wf(),
        Db::missing_pick(d, layer, pick, r),
        r.is_some(),
    ensures
        ({
            let l = candidates(d.files@, d.metas@, d.failures@, layer);
            let c = l[(pick as int) % (l.len() as int)];
            &&& c.id == (r->0).0
            &&& !failed(d.failures@, c.id, layer)
            &&& layer_missing(d.metas@, c, layer)
        }),
{
    lemma_candidates(d.files@, d.metas@, d.failures@, layer);
    let l = candidates(d.files@, d.metas@, d.failures@, layer);
    let q = (pick as int) % (l.len() as int);
    assert(0 <= q < l.len());
}

/// A copy of a tag list.
pub fn copy_tags(t: &Vec<String>) -> (r: Vec<String>)
    ensures
        tags_view(r@) == tags_view(t@),
{
    let mut out: Vec<String> = Vec::new();
    let mut j: usize = 0;
    while j < t.len()
        invariant
            j <= t@.len(),
            tags_view(out@) == tags_view(t@.subrange(0, j as int)),
        decreases t@.len() - j,
    {
        let c = t[j].clone();
        out.push(c);
        assert(tags_view(out@) == tags_view(out@.drop_last()).push(c@));
        assert(tags_view(t@.subrange(0, j + 1)) == tags_view(t@.subrange(0, j as int)).push(c@));
        j = j + 1;
    }
    assert(t@.subrange(0, t@.len() as int) == t@);
    out
}

/// Every running sum of the sizes, in order, fits in an `i64`.
pub open spec fn sums_fit(l: Seq<FileRec>) -> bool {
    forall|j: int| 0 <= j <= l.len() ==> i64::MIN <= #[trigger] size_sum(l.subrange(0, j)) <= i64::MAX
}

pub proof fn lemma_coll_len(f: Seq<FileRec>, m: Seq<MetaRec>, c: u8)
    ensures
        coll_files(f, m, c).len() <= f.len(),
    decreases f.len(),
{
    if f.len() > 0 {
        lemma_coll_len(f.drop_last(), m, c);
    }
}

/// The collection list of a longer prefix extends that of a shorter one.
proof fn lemma_fit_prefix(f: Seq<FileRec>, m: Seq<MetaRec>, c: u8, n: int)
    requires
        0 <= n <= f.len(),
    ensures
        !sums_fit(coll_files(f.subrange(0, n), m, c)) ==> !sums_fit(coll_files(f, m, c)),
    decreases f.len() - n,
{
    if n < f.len() {
        lemma_fit_prefix(f, m, c, n + 1);
        let a = coll_files(f.subrange(0, n), m, c);
        let b = coll_files(f.subrange(0, n + 1), m, c);
        assert(f.subrange(0, n + 1).drop_last() == f.subrange(0, n));
        if !sums_fit(a) {
            let j = choose|j: int| 0 <= j <= a.len() && !(i64::MIN <= #[trigger] size_sum(a.subrange(0, j)) <= i64::MAX);
            assert(b.subrange(0, j) == a.subrange(0, j));
        }
    } else {
        assert(f.subrange(0, n) == f);
    }
}

pub proof fn lemma_sorted_insert_len(l: Seq<Seq<char>>, x: Seq<char>)
    ensures
        sorted_insert(l, x).len() <= l.len() + 1,
    decreases l.len(),
{
    if l.len() > 0 && l[0] != x && !lex_lt(x, l[0]) {
        lemma_sorted_insert_len(l.drop_first(), x);
    }
}

pub proof fn lemma_dir_count_bound(f: Seq<FileRec>)
    ensures
        dir_list_of(f).len() <= f.len(),
    decreases f.len(),
{
    if f.len() > 0 {
        lemma_dir_count_bound(f.drop_last());
        lemma_sorted_insert_len(dir_list_of(f.drop_last()), f.last().dir@);
    }
}

/// Once a path is removed, looking it up finds nothing.
pub proof fn law_lookup_after_remove(
    d0: Db,
    d1: Db,
    path: Seq<char>,
    r: Option<(i64, Option<i64>, Option<String>)>,
)
    requires
        d0.wf(),
        !has_path(d1.files@, path),
        Db::looked_up(d1, path, r),
    ensures
        r.is_none(),
{
}

/// Aggregate counts for the status display.
pub struct CollectionStats {
    pub total_files: i64,
    pub total_dirs: i64,
    pub hashed: i64,
    pub with_exif: i64,
    pub failed: i64,
}

/// How many files carry a content hash.
pub open spec fn hashed_count(f: Seq<FileRec>) -> nat
    decreases f.len(),
{
    if f.len() == 0 {
        0
    } else {
        hashed_count(f.drop_last()) + if f.last().hash.is_some() { 1nat } else { 0nat }
    }
}

/// Whether a file's content has its dimensions recorded.
pub open spec fn has_dims(m: Seq<MetaRec>, f: FileRec) -> bool {
    f.meta_id matches Some(id) && exists|k: int| #[trigger] meta_pos(m, id, k) && m[k].width.is_some()
}

/// How many files have content with recorded dimensions.
pub open spec fn dims_count(f: Seq<FileRec>, m: Seq<MetaRec>) -> nat
    decreases f.len(),
{
    if f.len() == 0 {
        0
    } else {
        dims_count(f.drop_last(), m) + if has_dims(m, f.last()) { 1nat } else { 0nat }
    }
}

/// The sum of the known sizes.
pub open spec fn size_sum(f: Seq<FileRec>) -> int
    decreases f.len(),
{
    if f.len() == 0 {
        0
    } else {
        size_sum(f.drop_last()) + match f.last().size {
            Some(n) => n as int,
            None => 0,
        }
    }
}

/// `x` was modified after `y` (a file without a stamp is never newer).
pub open spec fn newer(x: FileRec, y: FileRec) -> bool {
    match (x.modified_at, y.modified_at) {
        (Some(mx), Some(my)) => lex_lt(my@, mx@),
        (Some(_), None) => true,
        _ => false,
    }
}

/// The position of the first file with the latest stamp, or -1 for no files.
pub open spec fn newest_pos(f: Seq<FileRec>) -> int
    decreases f.len(),
{
    if f.len() == 0 {
        -1
    } else {
        let b = newest_pos(f.drop_last());
        if b < 0 || newer(f.last(), f.drop_last()[b]) { f.len() - 1 } else { b }
    }
}

pub proof fn lemma_newest_pos(f: Seq<FileRec>)
    ensures
        -1 <= newest_pos(f) < f.len(),
        f.len() > 0 ==> newest_pos(f) >= 0,
    decreases f.len(),
{
    if f.len() > 0 {
        lemma_newest_pos(f.drop_last());
    }
}

/// The position of the latest `like` row whose file is still there and
/// still liked, or -1.
pub open spec fn latest_like_pos(d: Db, h: Seq<HistoryEvent>) -> int
    decreases h.len(),
{
    if h.len() == 0 {
        -1
    } else if h.last().action == Action::Like && exists|k: int| #[trigger] id_pos(d.files@, h.last().file_id, k)
        && file_has_tag(d.metas@, d.files@[k], "like"@) {
        h.len() - 1
    } else {
        latest_like_pos(d, h.drop_last())
    }
}

pub proof fn lemma_latest_like_pos(d: Db, h: Seq<HistoryEvent>)
    ensures
        -1 <= latest_like_pos(d, h) < h.len(),
    decreases h.len(),
{
    if h.len() > 0 {
        lemma_latest_like_pos(d, h.drop_last());
    }
}

/// `b` is row `a` with a new size and stamp, its content hash and metadata
/// link cleared, and everything else kept.
pub open spec fn refreshed_row(a: FileRec, b: FileRec, size: Option<i64>, mtime: Option<Seq<char>>) -> bool {
    &&& b.id == a.id && b.path@ == a.path@ && b.dir@ == a.dir@ && b.filename@ == a.filename@
    &&& b.size == size && opt_view(b.modified_at) == mtime
    &&& b.hash.is_none() && b.meta_id.is_none() && b.temporary == a.temporary
}

/// The optional text as a sequence of characters.
pub open spec fn opt_view(o: Option<String>) -> Option<Seq<char>> {
    match o {
        Some(s) => Some(s@),
        None => None,
    }
}

pub open spec fn opt_str_view(o: Option<&str>) -> Option<Seq<char>> {
    match o {
        Some(s) => Some(s@),
        None => None,
    }
}

/// The position of the file with path `p`.
pub open spec fn path_pos(f: Seq<FileRec>, p: Seq<char>, k: int) -> bool {
    0 <= k < f.len() && f[k].path@ == p
}

/// The position of the file with id `id`.
pub open spec fn id_pos(f: Seq<FileRec>, id: i64, k: int) -> bool {
    0 <= k < f.len() && f[k].id == id
}

/// Whether some file has path `p`.
pub open spec fn has_path(f: Seq<FileRec>, p: Seq<char>) -> bool {
    exists|k: int| #[trigger] path_pos(f, p, k)
}

/// Whether some file has id `id`.
pub open spec fn has_id(f: Seq<FileRec>, id: i64) -> bool {
    exists|k: int| #[trigger] id_pos(f, id, k)
}

/// The views of a list of (path, flag) pairs.
pub open spec fn pairs_view(v: Seq<(String, bool)>) -> Seq<(Seq<char>, bool)>
    decreases v.len(),
{
    if v.len() == 0 {
        Seq::empty()
    } else {
        pairs_view(v.drop_last()).push((v.last().0@, v.last().1))
    }
}

/// The watched rows as (path, recursive) pairs, in row order.
pub open spec fn watched_view(d: Seq<DirRec>) -> Seq<(Seq<char>, bool)>
    decreases d.len(),
{
    if d.len() == 0 {
        Seq::empty()
    } else if d.last().is_watched {
        watched_view(d.drop_last()).push((d.last().path@, d.last().recursive))
    } else {
        watched_view(d.drop_last())
    }
}

} // verus!
