//! Reconciling one file seen on disk with the index: the step that the
//! scanner runs for every media file it walks and the watcher for every
//! create or modify event.

use vstd::prelude::*;
use crate::paths::{long_prefix, str_name, str_parent};
use crate::store::{has_path, opt_str_view, opt_view, path_pos, refreshed_row, Db};
use crate::text::{has_prefix, str_eq};

verus! {

/// What indexing one file did.
#[derive(PartialEq, Eq, Structural, Clone, Copy, Debug)]
pub enum Indexed {
    /// A new row was added.
    Added,
    /// The size or stamp differed; the row was updated and its hash cleared.
    Updated,
    /// The row already matched.
    Unchanged,
    /// The path cannot be stored (it carries the extended-length prefix, or
    /// no id is left).
    Rejected,
}

/// Whether two optional texts are equal.
pub fn opt_text_eq(a: &Option<String>, b: Option<&str>) -> (r: bool)
    ensures
        r == (opt_view(*a) == opt_str_view(b)),
{
    match (a, b) {
        (Some(x), Some(y)) => str_eq(x.as_str(), y),
        (None, None) => true,
        _ => false,
    }
}

/// `path` is stored with this size and stamp.
pub open spec fn stored_as(d: Db, path: Seq<char>, size: Option<i64>, mtime: Option<Seq<char>>) -> bool {
    exists|k: int| #[trigger] path_pos(d.files@, path, k) && d.files@[k].size == size
        && opt_view(d.files@[k].modified_at) == mtime
}

/// What `index_file` does to the catalogue.
pub open spec fn index_post(
    old: Db,
    new: Db,
    path: Seq<char>,
    size: Option<i64>,
    mtime: Option<Seq<char>>,
    r: Indexed,
) -> bool {
    &&& new.metas@ == old.metas@
    &&& new.dirs@ == old.dirs@
    &&& new.history@ == old.history@
    &&& new.failures@ == old.failures@
    &&& match r {
        Indexed::Unchanged => stored_as(old, path, size, mtime) && new.files@ == old.files@,
        Indexed::Updated => {
            &&& !stored_as(old, path, size, mtime)
            &&& new.files@.len() == old.files@.len()
            &&& exists|k: int| #[trigger] path_pos(old.files@, path, k)
                && refreshed_row(old.files@[k], new.files@[k], size, mtime)
                && forall|j: int| 0 <= j < old.files@.len() && j != k ==> #[trigger] new.files@[j] == old.files@[j]
        },
        Indexed::Added => {
            &&& !has_path(old.files@, path)
            &&& new.files@.len() == old.files@.len() + 1
            &&& exists|k: int| 0 <= k < new.files@.len() && #[trigger] new.files@.remove(k) == old.files@
                && new.files@[k].path@ == path && new.files@[k].size == size
                && opt_view(new.files@[k].modified_at) == mtime && new.files@[k].id == old.next_file_id
                && new.files@[k].hash.is_none() && new.files@[k].meta_id.is_none() && !new.files@[k].temporary
        },
        Indexed::Rejected => !has_path(old.files@, path) && new.files@ == old.files@
            && (has_prefix(path, long_prefix()) || old.next_file_id == i64::MAX),
    }
}

impl Db {
    /// Brings the row for `path` in line with a file seen on disk with
    /// `size` and `modified_at`: adds it, updates it (clearing its hash), or
    /// leaves it. The directory and file name are taken from the path.
    pub fn index_file(&mut self, path: &str, size: Option<i64>, modified_at: Option<&str>) -> (r: Indexed)
        requires
            old(self).wf(),
        ensures
            final(self).wf(),
            index_post(*old(self), *final(self), path@, size, opt_str_view(modified_at), r),
    {
        match self.file_lookup(path) {
            Some((id, s0, m0)) => {
                let ghost k = choose|k: int| #[trigger] path_pos(self.files@, path@, k) && self.files@[k].id == id
                    && self.files@[k].size == s0 && opt_view(self.files@[k].modified_at) == opt_view(m0);
                if s0 == size && opt_text_eq(&m0, modified_at) {
                    Indexed::Unchanged
                } else {
                    proof {
                        assert forall|j: int| #[trigger] path_pos(self.files@, path@, j) implies j == k by {
                            if j != k {
                                crate::text::lemma_lex_total(self.files@[j].path@, self.files@[k].path@);
                                crate::text::lemma_lex_irreflexive(path@);
                            }
                        }
                    }
                    let ghost before = self.files@;
                    self.file_update_meta(id, size, modified_at);
                    proof {
                        assert(before[k].id == id);
                        assert(path_pos(self.files@, path@, k));
                        assert forall|j: int| 0 <= j < before.len() && j != k implies #[trigger] self.files@[j] == before[j] by {
                            assert(before[j].id != before[k].id);
                        }
                        assert(refreshed_row(before[k], self.files@[k], size, opt_str_view(modified_at)));
                    }
                    Indexed::Updated
                }
            },
            None => {
                let dir = str_parent(path);
                let name = str_name(path);
                match self.file_insert(path, dir.as_str(), name.as_str(), size, modified_at) {
                    Some(_) => {
                        proof {
                            let k = choose|k: int| 0 <= k < self.files@.len()
                                && #[trigger] self.files@.remove(k) == old(self).files@
                                && self.files@[k].path@ == path@ && self.files@[k].size == size
                                && opt_view(self.files@[k].modified_at) == opt_str_view(modified_at)
                                && self.files@[k].id == old(self).next_file_id
                                && self.files@[k].hash.is_none() && self.files@[k].meta_id.is_none()
                                && !self.files@[k].temporary;
                            assert(path_pos(self.files@, path@, k));
                        }
                        Indexed::Added
                    },
                    None => Indexed::Rejected,
                }
            },
        }
    }
}

/// Indexing the same file twice with the same size and stamp: the second
/// time finds the row already matching and changes nothing.
pub proof fn law_index_idempotent(
    d0: Db,
    d1: Db,
    d2: Db,
    path: Seq<char>,
    size: Option<i64>,
    mtime: Option<Seq<char>>,
    r1: Indexed,
    r2: Indexed,
)
    requires
        d0.wf(),
        d1.wf(),
        index_post(d0, d1, path, size, mtime, r1),
        index_post(d1, d2, path, size, mtime, r2),
        r1 != Indexed::Rejected,
    ensures
        r2 == Indexed::Unchanged,
        d2.files@ == d1.files@,
{
    if r1 == Indexed::Updated {
        let k = choose|k: int| #[trigger] path_pos(d0.files@, path, k)
            && refreshed_row(d0.files@[k], d1.files@[k], size, mtime)
            && forall|j: int| 0 <= j < d0.files@.len() && j != k ==> #[trigger] d1.files@[j] == d0.files@[j];
        assert(path_pos(d1.files@, path, k));
    } else if r1 == Indexed::Added {
        let k = choose|k: int| 0 <= k < d1.files@.len() && #[trigger] d1.files@.remove(k) == d0.files@
            && d1.files@[k].path@ == path && d1.files@[k].size == size
            && opt_view(d1.files@[k].modified_at) == mtime && d1.files@[k].id == d0.next_file_id
            && d1.files@[k].hash.is_none() && d1.files@[k].meta_id.is_none() && !d1.files@[k].temporary;
        assert(path_pos(d1.files@, path, k));
    }
    assert(stored_as(d1, path, size, mtime));
    assert(has_path(d1.files@, path));
}

} // verus!
