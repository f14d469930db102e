//! The filesystem watcher's decisions: which watches to register, and how a
//! change event on a path updates the index.

use vstd::prelude::*;
use crate::paths::{clean_path, clean_spec, has_media_ext, has_media_ext_spec, parent_spec, str_parent};
use crate::scan::{index_post, Indexed};
use crate::store::{has_path, opt_str_view, pairs_view, path_pos, Db};
use crate::text::{has_prefix, str_eq};

verus! {

/// Events sent from the watcher to the viewer.
#[derive(Debug)]
pub enum FsEvent {
    /// A file was created or modified; the directory it belongs to may need refreshing.
    Changed(String),
    /// A file was removed.
    Removed(String),
}

/// Commands sent from the viewer to the watcher.
#[derive(Debug)]
pub enum WatchCmd {
    /// Watch a directory (non-recursively) for changes.
    Watch(String),
    /// Stop watching a directory.
    Unwatch(String),
}

/// The kind of a filesystem change.
#[derive(PartialEq, Eq, Structural, Clone, Copy, Debug)]
pub enum Change {
    Create,
    Modify,
    Remove,
}

/// Whether another recursive entry strictly contains `p`.
pub open spec fn nested_in(all: Seq<(String, bool)>, p: Seq<char>) -> bool {
    exists|i: int| 0 <= i < all.len() && (#[trigger] all[i]).1 && all[i].0@ != p
        && has_prefix(p, all[i].0@.push('/'))
}

/// The entries of `part` that no recursive entry of `all` covers, in order.
pub open spec fn dedup_spec(all: Seq<(String, bool)>, part: Seq<(String, bool)>) -> Seq<(Seq<char>, bool)>
    decreases part.len(),
{
    if part.len() == 0 {
        Seq::empty()
    } else if nested_in(all, part.last().0@) {
        dedup_spec(all, part.drop_last())
    } else {
        dedup_spec(all, part.drop_last()).push((part.last().0@, part.last().1))
    }
}

/// Drops every watched directory that lies inside another recursive one, so
/// that nothing is registered twice; `/photo` does not cover `/photos`.
pub fn dedup_nested(dirs: &Vec<(String, bool)>) -> (r: Vec<(String, bool)>)
    ensures
        pairs_view(r@) == dedup_spec(dirs@, dirs@),
{
    let mut out: Vec<(String, bool)> = Vec::new();
    let mut i: usize = 0;
    while i < dirs.len()
        invariant
            i <= dirs@.len(),
            pairs_view(out@) == dedup_spec(dirs@, dirs@.subrange(0, i as int)),
        decreases dirs@.len() - i,
    {
        let p = dirs[i].0.as_str();
        let mut covered = false;
        let mut j: usize = 0;
        while j < dirs.len()
            invariant
                j <= dirs@.len(),
                p@ == dirs@[i as int].0@,
                i < dirs@.len(),
                covered == exists|q: int| 0 <= q < j && (#[trigger] dirs@[q]).1 && dirs@[q].0@ != p@
                    && has_prefix(p@, dirs@[q].0@.push('/')),
            decreases dirs@.len() - j,
        {
            let a = dirs[j].0.as_str();
            if dirs[j].1 && !str_eq(a, p) && crate::paths::is_under(p, a) {
                covered = true;
            }
            j = j + 1;
        }
        let ghost pre = dirs@.subrange(0, i + 1);
        assert(pre.drop_last() == dirs@.subrange(0, i as int));
        assert(pre.last() == dirs@[i as int]);
        assert(covered == nested_in(dirs@, p@));
        if !covered {
            let e = (dirs[i].0.clone(), dirs[i].1);
            let ghost before = out@;
            out.push(e);
            assert(out@.drop_last() == before);
            assert(pairs_view(out@) == pairs_view(before).push((e.0@, e.1)));
        }
        i = i + 1;
    }
    assert(dirs@.subrange(0, dirs@.len() as int) == dirs@);
    out
}

/// The directory that an event reports.
pub open spec fn event_dir(e: FsEvent) -> Seq<char> {
    match e {
        FsEvent::Changed(d) => d@,
        FsEvent::Removed(d) => d@,
    }
}

impl Db {
    /// Applies one filesystem change on `raw` to the index. The path is
    /// cleaned first; paths without a media extension are ignored. A create
    /// or modify indexes the file with the `size` and `modified_at` read from
    /// disk and reports its directory changed. A remove deletes the row of
    /// the cleaned path, or, when there is none, the row of the raw path, and
    /// reports the directory when a row was there.
    pub fn apply_change(&mut self, change: Change, raw: &str, size: Option<i64>, modified_at: Option<&str>) -> (r: Option<FsEvent>)
        requires
            old(self).wf(),
        ensures
            final(self).wf(),
            final(self).dirs@ == old(self).dirs@,
            final(self).metas@ == old(self).metas@,
            final(self).history@ == old(self).history@,
            final(self).failures@ == old(self).failures@,
            ({
                let p = clean_spec(raw@);
                if !has_media_ext_spec(p) {
                    r.is_none() && final(self).files@ == old(self).files@
                } else if change == Change::Remove {
                    &&& !has_path(final(self).files@, p)
                    &&& if has_path(old(self).files@, p) {
                        &&& exists|k: int| #[trigger] path_pos(old(self).files@, p, k)
                            && final(self).files@ == old(self).files@.remove(k)
                        &&& r matches Some(FsEvent::Removed(d)) && d@ == parent_spec(p)
                    } else if has_path(old(self).files@, raw@) {
                        &&& exists|k: int| #[trigger] path_pos(old(self).files@, raw@, k)
                            && final(self).files@ == old(self).files@.remove(k)
                        &&& r matches Some(FsEvent::Removed(d)) && d@ == parent_spec(raw@)
                    } else {
                        r.is_none() && final(self).files@ == old(self).files@
                    }
                } else {
                    &&& exists|x: Indexed| index_post(*old(self), *final(self), p, size, opt_str_view(modified_at), x)
                    &&& r matches Some(FsEvent::Changed(d)) && d@ == parent_spec(p)
                }
            }),
    {
        let p = clean_path(raw);
        if !has_media_ext(p.as_str()) {
            return None;
        }
        match change {
            Change::Remove => {
                if self.file_lookup(p.as_str()).is_some() {
                    self.remove_file_by_path(p.as_str());
                    Some(FsEvent::Removed(str_parent(p.as_str())))
                } else if self.file_lookup(raw).is_some() {
                    self.remove_file_by_path(raw);
                    proof {
                        let nf = self.files@;
                        let of = old(self).files@;
                        assert forall|k: int| !path_pos(nf, p@, k) by {
                            if 0 <= k < nf.len() && nf[k].path@ == p@ {
                                let q = choose|q: int| #[trigger] path_pos(of, raw@, q) && nf == of.remove(q);
                                let k0 = if k < q { k } else { k + 1 };
                                assert(nf[k] == of[k0]);
                                assert(path_pos(of, p@, k0));
                            }
                        }
                    }
                    Some(FsEvent::Removed(str_parent(raw)))
                } else {
                    None
                }
            },
            _ => {
                self.index_file(p.as_str(), size, modified_at);
                Some(FsEvent::Changed(str_parent(p.as_str())))
            },
        }
    }
}

} // verus!
