//! The bounded least-recently-used cache of GPU textures, and the preloader's
//! bookkeeping of decodes in flight and decoded images waiting to be taken.
//! Creating and destroying textures, and decoding, happen outside: the cache
//! says which texture to destroy and when there is room for a new one.

use vstd::prelude::*;
use crate::paths::{ext_part, image_ext_spec, is_image};
use crate::store::FileEntry;
use crate::text::{lower_of, str_eq};

verus! {

/// Decoded image: raw RGBA pixels ready for upload.
pub struct DecodedImage {
    pub rgba: Vec<u8>,
    pub width: u32,
    pub height: u32,
}

/// A cached GPU texture.
#[derive(Clone, Copy, PartialEq, Eq, Structural, Debug)]
pub struct TexInfo {
    pub gl_id: u32,
    pub width: u32,
    pub height: u32,
}

/// The paths of a list of keyed entries.
pub open spec fn keys_of<T>(e: Seq<(String, T)>) -> Seq<Seq<char>> {
    e.map_values(|x: (String, T)| x.0@)
}

/// No path occurs twice.
pub open spec fn unique_keys(k: Seq<Seq<char>>) -> bool {
    forall|i: int, j: int| 0 <= i < k.len() && 0 <= j < k.len() && i != j ==> k[i] != k[j]
}

fn find_key<T>(e: &Vec<(String, T)>, path: &str) -> (r: Option<usize>)
    ensures
        match r {
            Some(i) => i < e@.len() && e@[i as int].0@ == path@,
            None => !keys_of(e@).contains(path@),
        },
{
    let mut i: usize = 0;
    while i < e.len()
        invariant
            i <= e@.len(),
            forall|j: int| 0 <= j < i ==> (#[trigger] e@[j]).0@ != path@,
        decreases e@.len() - i,
    {
        if str_eq(e[i].0.as_str(), path) {
            return Some(i);
        }
        i = i + 1;
    }
    proof {
        if keys_of(e@).contains(path@) {
            let j = choose|j: int| 0 <= j < keys_of(e@).len() && keys_of(e@)[j] == path@;
            assert(e@[j].0@ == path@);
        }
    }
    None
}

/// LRU texture cache: at most `capacity` textures, oldest first.
pub struct TextureCache {
    pub capacity: usize,
    pub entries: Vec<(String, TexInfo)>,
}

/// What an upload needs done.
#[derive(PartialEq, Eq, Structural, Clone, Copy, Debug)]
pub enum UploadPlan {
    /// The path is cached already; it became the most recent entry.
    Cached,
    /// There is room now; destroy the evicted texture, if any, then create
    /// the new one and hand it to `finish_upload`.
    Admit(Option<TexInfo>),
}

impl TextureCache {
    pub open spec fn wf(&self) -> bool {
        &&& self.capacity >= 1
        &&& self.entries@.len() <= self.capacity
        &&& unique_keys(keys_of(self.entries@))
    }

    /// The cached paths, least recently used first.
    pub open spec fn order(&self) -> Seq<Seq<char>> {
        keys_of(self.entries@)
    }

    /// An empty cache that holds up to `capacity` textures.
    pub fn new(capacity: usize) -> (r: TextureCache)
        requires
            capacity >= 1,
        ensures
            r.wf(),
            r.capacity == capacity,
            r.entries@.len() == 0,
    {
        TextureCache { capacity, entries: Vec::new() }
    }

    /// Whether `path` is cached.
    pub fn has(&self, path: &str) -> (r: bool)
        ensures
            r == self.order().contains(path@),
    {
        match find_key(&self.entries, path) {
            Some(i) => {
                assert(self.order()[i as int] == path@);
                true
            },
            None => false,
        }
    }

    /// The texture cached for `path`; the LRU order is left as it is.
    pub fn get(&self, path: &str) -> (r: Option<TexInfo>)
        ensures
            r.is_none() == !self.order().contains(path@),
            r matches Some(t) ==> exists|i: int| 0 <= i < self.entries@.len() && (#[trigger] self.entries@[i]).0@ == path@
                && self.entries@[i].1 == t,
    {
        match find_key(&self.entries, path) {
            Some(i) => {
                proof {
                    assert(self.order()[i as int] == path@);
                }
                Some(self.entries[i].1)
            },
            None => None,
        }
    }

    /// Makes `path` the most recently used entry, if it is cached.
    pub fn touch(&mut self, path: &str)
        requires
            old(self).wf(),
        ensures
            final(self).wf(),
            final(self).capacity == old(self).capacity,
            final(self).order().to_set() == old(self).order().to_set(),
            old(self).order().contains(path@) ==> final(self).order().last() == path@,
            !old(self).order().contains(path@) ==> final(self).entries@ == old(self).entries@,
    {
        if let Some(i) = find_key(&self.entries, path) {
            let ghost before = self.entries@;
            let e = self.entries.remove(i);
            self.entries.push(e);
            proof {
                let after = self.entries@;
                let (kb, ka) = (keys_of(before), keys_of(after));
                assert(ka =~= kb.remove(i as int).push(kb[i as int]));
                assert forall|a: int, b: int| 0 <= a < ka.len() && 0 <= b < ka.len() && a != b implies ka[a] != ka[b] by {
                    let a0 = if a == ka.len() - 1 { i as int } else if a < i { a } else { a + 1 };
                    let b0 = if b == ka.len() - 1 { i as int } else if b < i { b } else { b + 1 };
                    assert(ka[a] == kb[a0] && ka[b] == kb[b0]);
                }
                assert forall|x: Seq<char>| ka.to_set().contains(x) <==> kb.to_set().contains(x) by {
                    if kb.to_set().contains(x) {
                        let j = choose|j: int| 0 <= j < kb.len() && kb[j] == x;
                        let j1 = if j == i { ka.len() - 1 } else if j < i { j } else { j - 1 };
                        assert(ka[j1] == x);
                    }
                    if ka.to_set().contains(x) {
                        let j = choose|j: int| 0 <= j < ka.len() && ka[j] == x;
                        let j0 = if j == ka.len() - 1 { i as int } else if j < i { j } else { j + 1 };
                        assert(kb[j0] == x);
                    }
                }
                assert(ka.to_set() =~= kb.to_set());
            }
        }
    }

    /// The first half of an upload. A cached path is touched. Otherwise, when
    /// the cache is full, the least recently used entry is evicted and its
    /// texture handed back for destruction, so that there is room for one more.
    pub fn begin_upload(&mut self, path: &str) -> (r: UploadPlan)
        requires
            old(self).wf(),
        ensures
            final(self).wf(),
            final(self).capacity == old(self).capacity,
            old(self).order().contains(path@) ==> r == UploadPlan::Cached && final(self).order().last() == path@
                && final(self).order().to_set() == old(self).order().to_set(),
            !old(self).order().contains(path@) ==> {
                &&& final(self).entries@.len() < final(self).capacity
                &&& !final(self).order().contains(path@)
                &&& if old(self).entries@.len() == old(self).capacity {
                    r == UploadPlan::Admit(Some(old(self).entries@[0].1))
                        && final(self).entries@ == old(self).entries@.subrange(1, old(self).entries@.len() as int)
                } else {
                    r == UploadPlan::Admit(None) && final(self).entries@ == old(self).entries@
                }
            },
    {
        if self.has(path) {
            self.touch(path);
            return UploadPlan::Cached;
        }
        if self.entries.len() >= self.capacity {
            let ghost before = self.entries@;
            let (_, victim) = self.entries.remove(0);
            proof {
                let after = self.entries@;
                assert(after =~= before.subrange(1, before.len() as int));
                let (kb, ka) = (keys_of(before), keys_of(after));
                assert forall|a: int, b: int| 0 <= a < ka.len() && 0 <= b < ka.len() && a != b implies ka[a] != ka[b] by {
                    assert(ka[a] == kb[a + 1] && ka[b] == kb[b + 1]);
                }
                if ka.contains(path@) {
                    let j = choose|j: int| 0 <= j < ka.len() && ka[j] == path@;
                    assert(kb[j + 1] == path@);
                }
            }
            UploadPlan::Admit(Some(victim))
        } else {
            UploadPlan::Admit(None)
        }
    }

    /// The second half of an upload: caches the new texture as the most
    /// recently used entry.
    pub fn finish_upload(&mut self, path: &str, info: TexInfo)
        requires
            old(self).wf(),
            old(self).entries@.len() < old(self).capacity,
            !old(self).order().contains(path@),
        ensures
            final(self).wf(),
            final(self).capacity == old(self).capacity,
            final(self).order() == old(self).order().push(path@),
            final(self).entries@.last().1 == info,
    {
        let ghost before = self.entries@;
        self.entries.push((String::from_str(path), info));
        proof {
            let (kb, ka) = (keys_of(before), keys_of(self.entries@));
            assert(ka =~= kb.push(path@));
            assert forall|a: int, b: int| 0 <= a < ka.len() && 0 <= b < ka.len() && a != b implies ka[a] != ka[b] by {
                if a == kb.len() {
                    assert(kb[b] == ka[b]);
                } else if b == kb.len() {
                    assert(kb[a] == ka[a]);
                }
            }
        }
    }

    /// Empties the cache and hands back every texture for destruction.
    pub fn drain(&mut self) -> (r: Vec<TexInfo>)
        requires
            old(self).wf(),
        ensures
            final(self).wf(),
            final(self).entries@.len() == 0,
            r@.len() == old(self).entries@.len(),
            forall|i: int| 0 <= i < r@.len() ==> r@[i] == #[trigger] old(self).entries@[i].1,
    {
        let mut out: Vec<TexInfo> = Vec::new();
        let mut i: usize = 0;
        while i < self.entries.len()
            invariant
                i <= self.entries@.len(),
                self.entries@ == old(self).entries@,
                out@.len() == i,
                forall|j: int| 0 <= j < i ==> out@[j] == #[trigger] old(self).entries@[j].1,
            decreases self.entries@.len() - i,
        {
            out.push(self.entries[i].1);
            i = i + 1;
        }
        self.entries = Vec::new();
        out
    }

    /// Uploads happen on demand through the preloader, so there is nothing
    /// to pump; the hook is kept for callers that poll it every frame.
    pub fn pump_uploads(&mut self)
        ensures
            *final(self) == *old(self),
    {
    }
}

/// The paths of a list of strings.
pub open spec fn paths_of(v: Seq<String>) -> Seq<Seq<char>> {
    v.map_values(|s: String| s@)
}

/// Decodes in flight or finished and not yet taken, and the decoded images.
pub struct Preloader {
    pub pending: Vec<String>,
    pub ready: Vec<(String, DecodedImage)>,
}

impl Preloader {
    /// No path has two ready images.
    pub open spec fn wf(&self) -> bool {
        unique_keys(keys_of(self.ready@))
    }

    /// Nothing pending, nothing ready.
    pub fn new() -> (r: Preloader)
        ensures
            r.wf(),
            r.pending@.len() == 0,
            r.ready@.len() == 0,
    {
        Preloader { pending: Vec::new(), ready: Vec::new() }
    }

    /// Whether a decode for `path` is in flight or ready.
    pub fn is_pending(&self, path: &str) -> (r: bool)
        ensures
            r == paths_of(self.pending@).contains(path@),
    {
        let mut i: usize = 0;
        while i < self.pending.len()
            invariant
                i <= self.pending@.len(),
                forall|j: int| 0 <= j < i ==> (#[trigger] self.pending@[j])@ != path@,
            decreases self.pending@.len() - i,
        {
            if str_eq(self.pending[i].as_str(), path) {
                assert(paths_of(self.pending@)[i as int] == path@);
                return true;
            }
            i = i + 1;
        }
        proof {
            if paths_of(self.pending@).contains(path@) {
                let j = choose|j: int| 0 <= j < paths_of(self.pending@).len() && paths_of(self.pending@)[j] == path@;
                assert(self.pending@[j]@ == path@);
            }
        }
        false
    }

    /// Registers a decode of `path`; `false` (and no change) when one is
    /// already in flight or ready, `true` when the caller must start it.
    pub fn schedule(&mut self, path: &str) -> (start: bool)
        ensures
            start == !paths_of(old(self).pending@).contains(path@),
            start ==> paths_of(final(self).pending@) == paths_of(old(self).pending@).push(path@),
            !start ==> final(self).pending@ == old(self).pending@,
            final(self).ready@ == old(self).ready@,
    {
        if self.is_pending(path) {
            return false;
        }
        let s = String::from_str(path);
        let ghost before = self.pending@;
        self.pending.push(s);
        assert(paths_of(self.pending@) =~= paths_of(before).push(path@));
        true
    }

    fn drop_pending(&mut self, path: &str)
        ensures
            !paths_of(final(self).pending@).contains(path@),
            paths_of(final(self).pending@).to_set() == paths_of(old(self).pending@).to_set().remove(path@),
            final(self).ready@ == old(self).ready@,
    {
        let mut kept: Vec<String> = Vec::new();
        let mut i: usize = 0;
        while i < self.pending.len()
            invariant
                i <= self.pending@.len(),
                self.pending@ == old(self).pending@,
                self.ready@ == old(self).ready@,
                paths_of(kept@) == crate::store::without(paths_of(self.pending@.subrange(0, i as int)), path@),
            decreases self.pending@.len() - i,
        {
            let ghost pre = paths_of(self.pending@.subrange(0, i + 1));
            assert(pre.drop_last() == paths_of(self.pending@.subrange(0, i as int)));
            if !str_eq(self.pending[i].as_str(), path) {
                let c = self.pending[i].clone();
                let ghost before = kept@;
                kept.push(c);
                assert(paths_of(kept@) == paths_of(before).push(c@));
            }
            i = i + 1;
        }
        assert(self.pending@.subrange(0, self.pending@.len() as int) == self.pending@);
        proof {
            crate::store::lemma_without(paths_of(self.pending@), path@);
        }
        self.pending = kept;
    }

    /// Stores the outcome of a decode: the image becomes ready under its
    /// path, replacing an older one, or, when the decode failed, the path
    /// stops being pending.
    pub fn finish(&mut self, path: &str, img: Option<DecodedImage>)
        requires
            old(self).wf(),
        ensures
            final(self).wf(),
            img matches Some(d) ==> {
                &&& final(self).pending@ == old(self).pending@
                &&& keys_of(final(self).ready@).to_set() == keys_of(old(self).ready@).to_set().insert(path@)
                &&& exists|i: int| 0 <= i < final(self).ready@.len() && (#[trigger] final(self).ready@[i]).0@ == path@
                    && final(self).ready@[i].1 == d
            },
            img.is_none() ==> !paths_of(final(self).pending@).contains(path@) && final(self).ready@ == old(self).ready@,
    {
        match img {
            Some(d) => {
                let ghost before = self.ready@;
                let ghost kb = keys_of(before);
                let e = (String::from_str(path), d);
                match find_key(&self.ready, path) {
                    Some(i) => {
                        self.ready.remove(i);
                        self.ready.insert(i, e);
                        proof {
                            assert(self.ready@ =~= before.update(i as int, e));
                            let ka = keys_of(self.ready@);
                            assert(ka =~= kb.update(i as int, path@));
                            assert(kb[i as int] == path@);
                            assert(ka =~= kb);
                            assert(kb.to_set().contains(path@));
                            assert(kb.to_set().insert(path@) =~= kb.to_set());
                            assert(self.ready@[i as int].0@ == path@);
                        }
                    },
                    None => {
                        self.ready.push(e);
                        proof {
                            let ka = keys_of(self.ready@);
                            assert(ka =~= kb.push(path@));
                            kb.lemma_push_to_set_commute(path@);
                            assert forall|x: int, y: int| 0 <= x < ka.len() && 0 <= y < ka.len() && x != y implies ka[x] != ka[y] by {
                                if x == kb.len() {
                                    assert(kb[y] == ka[y]);
                                } else if y == kb.len() {
                                    assert(kb[x] == ka[x]);
                                }
                            }
                            assert(self.ready@[kb.len() as int].0@ == path@);
                        }
                    },
                }
            },
            None => self.drop_pending(path),
        }
    }

    /// Takes the decoded image stored for `path`, if one is ready: it leaves
    /// the ready list and the path stops being pending.
    pub fn try_take(&mut self, path: &str) -> (r: Option<DecodedImage>)
        requires
            old(self).wf(),
        ensures
            final(self).wf(),
            match r {
                Some(img) => {
                    &&& exists|i: int| 0 <= i < old(self).ready@.len() && (#[trigger] old(self).ready@[i]).0@ == path@
                        && img == old(self).ready@[i].1 && final(self).ready@ == old(self).ready@.remove(i)
                    &&& !keys_of(final(self).ready@).contains(path@)
                    &&& !paths_of(final(self).pending@).contains(path@)
                },
                None => !keys_of(old(self).ready@).contains(path@) && *final(self) == *old(self),
            },
    {
        match find_key(&self.ready, path) {
            Some(i) => {
                let ghost before = self.ready@;
                let (_, img) = self.ready.remove(i);
                proof {
                    let kb = keys_of(before);
                    let ka = keys_of(self.ready@);
                    assert(ka =~= kb.remove(i as int));
                    assert(kb[i as int] == path@);
                    assert forall|x: int, y: int| 0 <= x < ka.len() && 0 <= y < ka.len() && x != y implies ka[x] != ka[y] by {
                        let x0 = if x < i { x } else { x + 1 };
                        let y0 = if y < i { y } else { y + 1 };
                        assert(ka[x] == kb[x0] && ka[y] == kb[y0]);
                    }
                    if ka.contains(path@) {
                        let q = choose|q: int| 0 <= q < ka.len() && ka[q] == path@;
                        let q0 = if q < i { q } else { q + 1 };
                        assert(ka[q] == kb[q0]);
                    }
                }
                self.drop_pending(path);
                Some(img)
            },
            None => None,
        }
    }
}

/// The neighbours of `cursor` that the display step decodes ahead: indices
/// from `cursor - 10` to `cursor + 10` inside the list, the cursor excluded.
pub open spec fn in_window(len: int, cursor: int, i: int) -> bool {
    0 <= i < len && cursor - 10 <= i <= cursor + 10 && i != cursor
}

/// `x` is the path of a file in the window around `cursor`.
pub open spec fn from_window(files: Seq<FileEntry>, cursor: int, x: Seq<char>) -> bool {
    exists|k: int| #[trigger] in_window(files.len() as int, cursor, k) && files[k].path@ == x
}

/// Starts decodes for the images around the cursor that are neither cached
/// nor pending, and returns their paths.
pub fn schedule_preload(preloader: &mut Preloader, cache: &TextureCache, files: &Vec<FileEntry>, cursor: usize) -> (r: Vec<String>)
    ensures
        final(preloader).ready@ == old(preloader).ready@,
        forall|x: Seq<char>| paths_of(old(preloader).pending@).contains(x) ==> paths_of(final(preloader).pending@).contains(x),
        forall|i: int| #[trigger] in_window(files@.len() as int, cursor as int, i)
            && image_ext_spec(lower_of(ext_part(files@[i].path@))) && !cache.order().contains(files@[i].path@)
            ==> paths_of(final(preloader).pending@).contains(files@[i].path@),
        forall|j: int| 0 <= j < r@.len() ==> !paths_of(old(preloader).pending@).contains((#[trigger] r@[j])@),
        forall|j: int| 0 <= j < r@.len() ==> paths_of(final(preloader).pending@).contains((#[trigger] r@[j])@),
        forall|j: int| 0 <= j < r@.len() ==> from_window(files@, cursor as int, (#[trigger] r@[j])@),
{
    broadcast use vstd::seq_lib::lemma_seq_contains_after_push;
    let start: usize = if cursor >= 10 { cursor - 10 } else { 0 };
    let end: usize = if files.len() < 11 || cursor >= files.len() - 11 { files.len() } else { cursor + 11 };
    let mut out: Vec<String> = Vec::new();
    let mut i: usize = start;
    while i < end
        invariant
            start <= i,
            i <= end || end <= start,
            end <= files@.len(),
            start as int == if cursor >= 10 { cursor - 10 } else { 0 },
            end as int == if files@.len() <= cursor + 11 { files@.len() as int } else { cursor + 11 },
            preloader.ready@ == old(preloader).ready@,
            forall|x: Seq<char>| paths_of(old(preloader).pending@).contains(x) ==> paths_of(preloader.pending@).contains(x),
            forall|k: int| #[trigger] in_window(files@.len() as int, cursor as int, k) && k < i
                && image_ext_spec(lower_of(ext_part(files@[k].path@))) && !cache.order().contains(files@[k].path@)
                ==> paths_of(preloader.pending@).contains(files@[k].path@),
            forall|j: int| 0 <= j < out@.len() ==> {
                &&& !paths_of(old(preloader).pending@).contains((#[trigger] out@[j])@)
                &&& paths_of(preloader.pending@).contains(out@[j]@)
                &&& from_window(files@, cursor as int, out@[j]@)
            },
        decreases end - i,
    {
        let ghost pend0 = paths_of(preloader.pending@);
        let ghost out0 = out@;
        if i != cursor {
            let p = files[i].path.as_str();
            if is_image(p) && !cache.has(p) && !preloader.is_pending(p) {
                preloader.schedule(p);
                let s = String::from_str(p);
                out.push(s);
                proof {
                    let pend1 = paths_of(preloader.pending@);
                    assert(in_window(files@.len() as int, cursor as int, i as int));
                    assert(pend1 == pend0.push(p@));
                    assert forall|x: Seq<char>| pend0.contains(x) implies #[trigger] pend1.contains(x) by {
                        vstd::seq_lib::lemma_seq_contains_after_push(pend0, p@, x);
                    }
                    vstd::seq_lib::lemma_seq_contains_after_push(pend0, p@, p@);
                    assert forall|j: int| 0 <= j < out@.len() implies {
                        &&& !paths_of(old(preloader).pending@).contains((#[trigger] out@[j])@)
                        &&& pend1.contains(out@[j]@)
                        &&& from_window(files@, cursor as int, out@[j]@)
                    } by {
                        if j < out0.len() {
                            assert(out@[j] == out0[j]);
                            assert(pend0.contains(out0[j]@));
                        } else {
                            assert(out@[j]@ == p@);
                        }
                    }
                }
            }
        }
        proof {
            let pend1 = paths_of(preloader.pending@);
            assert forall|k: int| #[trigger] in_window(files@.len() as int, cursor as int, k) && k < i + 1
                && image_ext_spec(lower_of(ext_part(files@[k].path@))) && !cache.order().contains(files@[k].path@)
                implies pend1.contains(files@[k].path@) by {
                if k < i {
                    assert(pend0.contains(files@[k].path@));
                }
            }
        }
        i = i + 1;
    }
    out
}

} // verus!
