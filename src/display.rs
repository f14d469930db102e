//! The display step's decisions: what to do with the file under the cursor,
//! the debounce that coalesces video loads, the outcome of a pending image
//! decode, and keeping the cursor on its file when the list is refreshed.

use vstd::prelude::*;
use crate::nav::Nav;
use crate::paths::{ext_part, file_name_of, file_name_spec, image_ext_spec, is_image, is_video, video_ext_spec};
use crate::store::{coll_files, dir_files, lists_all, Db, FileEntry};
use crate::text::{lower_of, str_eq};
use crate::watch::FsEvent;

verus! {

/// How long navigation must rest on a video before it is loaded, in milliseconds.
pub const VIDEO_DEBOUNCE_MS: u64 = 150;

/// What the display step does with the file under the cursor.
#[derive(PartialEq, Eq, Structural, Clone, Copy, Debug)]
pub enum DisplayPlan {
    /// The file is gone from disk: show "File not found".
    NotFound,
    /// An image whose texture is cached.
    ImageCached,
    /// An image whose decoded pixels are ready: upload them.
    ImageFromPreload,
    /// An image to decode in the background; the load stays pending.
    ImageAsync,
    /// A video: stop the engine and start the debounce.
    Video,
    /// Anything else: show "Unsupported file type".
    Unsupported,
}

/// The decision tree of the display step.
pub open spec fn plan_spec(path: Seq<char>, exists: bool, cached: bool, ready: bool) -> DisplayPlan {
    let e = lower_of(ext_part(path));
    if !exists {
        DisplayPlan::NotFound
    } else if image_ext_spec(e) {
        if cached {
            DisplayPlan::ImageCached
        } else if ready {
            DisplayPlan::ImageFromPreload
        } else {
            DisplayPlan::ImageAsync
        }
    } else if video_ext_spec(e) {
        DisplayPlan::Video
    } else {
        DisplayPlan::Unsupported
    }
}

/// Decides how to show `path`, given whether it exists on disk, whether its
/// texture is cached, and whether decoded pixels for it are ready.
pub fn plan_display(path: &str, exists: bool, cached: bool, ready: bool) -> (r: DisplayPlan)
    ensures
        r == plan_spec(path@, exists, cached, ready),
{
    if !exists {
        DisplayPlan::NotFound
    } else if is_image(path) {
        if cached {
            DisplayPlan::ImageCached
        } else if ready {
            DisplayPlan::ImageFromPreload
        } else {
            DisplayPlan::ImageAsync
        }
    } else if is_video(path) {
        DisplayPlan::Video
    } else {
        DisplayPlan::Unsupported
    }
}

/// The banner a plan raises, with the file name; `None` for a plan that
/// shows the file.
pub fn error_for(plan: DisplayPlan, filename: &str) -> (r: Option<(String, String)>)
    ensures
        plan == DisplayPlan::NotFound ==> (r matches Some((m, f)) && m@ == "File not found"@ && f@ == filename@),
        plan == DisplayPlan::Unsupported ==> (r matches Some((m, f)) && m@ == "Unsupported file type"@ && f@ == filename@),
        plan != DisplayPlan::NotFound && plan != DisplayPlan::Unsupported ==> r.is_none(),
{
    match plan {
        DisplayPlan::NotFound => Some((String::from_str("File not found"), String::from_str(filename))),
        DisplayPlan::Unsupported => Some((String::from_str("Unsupported file type"), String::from_str(filename))),
        _ => None,
    }
}

/// The banner for an image whose background decode failed: the message and
/// the last `/` component of the path.
pub fn decode_failure(path: &str) -> (r: (String, String))
    ensures
        r.0@ == "Failed to decode image"@,
        r.1@ == file_name_spec(path@),
{
    (String::from_str("Failed to decode image"), file_name_of(path))
}

/// The volume after `up` / `down`: five steps, kept within 0..=150.
pub fn volume_step(volume: i64, up: bool) -> (r: i64)
    requires
        0 <= volume <= 150,
    ensures
        r == if up {
            if volume + 5 > 150 { 150 } else { volume + 5 }
        } else {
            if volume - 5 < 0 { 0 } else { volume - 5 }
        },
        0 <= r <= 150,
{
    if up {
        if volume + 5 > 150 { 150 } else { volume + 5 }
    } else {
        if volume - 5 < 0 { 0 } else { volume - 5 }
    }
}

/// The seek offset of the left and right arrows, in seconds.
pub fn seek_seconds(forward: bool) -> (r: i64)
    ensures
        r == if forward { 15i64 } else { -5i64 },
{
    if forward { 15 } else { -5 }
}

/// Whether the spinner shows: an image decode is awaited, or a video is
/// playing that has not produced a frame yet.
pub fn show_spinner(cold_load_pending: bool, video_active: bool, has_frame: bool) -> (r: bool)
    ensures
        r == (cold_load_pending || (video_active && !has_frame)),
{
    cold_load_pending || (video_active && !has_frame)
}

/// Whether the mouse pointer is hidden now: after two seconds without motion.
pub fn hide_pointer(visible: bool, idle_ms: u64) -> (r: bool)
    ensures
        r == (visible && idle_ms >= 2000),
{
    visible && idle_ms >= 2000
}

/// What became of an image decode that the display step waits for.
#[derive(PartialEq, Eq, Structural, Clone, Copy, Debug)]
pub enum ColdLoad {
    /// The pixels are ready: upload them and stop waiting.
    Upload,
    /// Still decoding.
    Wait,
    /// Neither ready nor in flight: the decode failed.
    Failed,
}

/// Decides on a pending decode from the two things the preloader reports.
pub fn cold_load_outcome(ready: bool, pending: bool) -> (r: ColdLoad)
    ensures
        ready ==> r == ColdLoad::Upload,
        !ready && pending ==> r == ColdLoad::Wait,
        !ready && !pending ==> r == ColdLoad::Failed,
{
    if ready {
        ColdLoad::Upload
    } else if pending {
        ColdLoad::Wait
    } else {
        ColdLoad::Failed
    }
}

/// The video load waiting for navigation to rest: the path and when it was
/// requested, in milliseconds of a monotonic clock.
pub struct VideoDebounce {
    pub pending: Option<(String, u64)>,
}

impl VideoDebounce {
    /// Nothing pending.
    pub fn new() -> (r: VideoDebounce)
        ensures
            r.pending.is_none(),
    {
        VideoDebounce { pending: None }
    }

    /// Asks for `path` to be loaded; it supersedes whatever was pending.
    pub fn request(&mut self, path: &str, now_ms: u64)
        ensures
            final(self).pending matches Some((p, t)) && p@ == path@ && t == now_ms,
    {
        self.pending = Some((String::from_str(path), now_ms));
    }

    /// Drops the pending load (an image was shown instead).
    pub fn cancel(&mut self)
        ensures
            final(self).pending.is_none(),
    {
        self.pending = None;
    }

    /// The path to load now, once `VIDEO_DEBOUNCE_MS` have passed since it was
    /// requested; it is then no longer pending.
    pub fn poll(&mut self, now_ms: u64) -> (r: Option<String>)
        ensures
            match old(self).pending {
                Some((p, t)) => if now_ms >= t && now_ms - t >= VIDEO_DEBOUNCE_MS {
                    (r matches Some(q) && q@ == p@) && final(self).pending.is_none()
                } else {
                    r.is_none() && final(self).pending == old(self).pending
                },
                None => r.is_none() && final(self).pending.is_none(),
            },
    {
        let due = match &self.pending {
            Some((_, t)) => now_ms >= *t && now_ms - *t >= VIDEO_DEBOUNCE_MS,
            None => false,
        };
        if due {
            match self.pending.take() {
                Some((p, _)) => Some(p),
                None => None,
            }
        } else {
            None
        }
    }
}

/// Where the cursor goes after the list is re-read: onto the file it was on
/// if that file is still listed, else the old cursor clamped to the list.
pub open spec fn kept_cursor(old_id: Option<i64>, cursor: usize, files: Seq<FileEntry>) -> int {
    match old_id {
        Some(id) if exists|i: int| 0 <= i < files.len() && (#[trigger] files[i]).id == id =>
            choose|i: int| 0 <= i < files.len() && (#[trigger] files[i]).id == id && forall|j: int| 0 <= j < i ==> (#[trigger] files[j]).id != id,
        _ => if files.len() == 0 { 0 } else if cursor < files.len() { cursor as int } else { files.len() - 1 },
    }
}

/// The position of the first entry with id `id`.
pub fn position_of(files: &Vec<FileEntry>, id: i64) -> (r: Option<usize>)
    ensures
        match r {
            Some(i) => i < files@.len() && files@[i as int].id == id
                && forall|j: int| 0 <= j < i ==> (#[trigger] files@[j]).id != id,
            None => forall|j: int| 0 <= j < files@.len() ==> (#[trigger] files@[j]).id != id,
        },
{
    let mut i: usize = 0;
    while i < files.len()
        invariant
            i <= files@.len(),
            forall|j: int| 0 <= j < i ==> (#[trigger] files@[j]).id != id,
        decreases files@.len() - i,
    {
        if files[i].id == id {
            return Some(i);
        }
        i = i + 1;
    }
    None
}

/// The cursor for a re-read list, keeping the file that was under it.
pub fn refresh_cursor(old_id: Option<i64>, cursor: usize, files: &Vec<FileEntry>) -> (r: usize)
    ensures
        r as int == kept_cursor(old_id, cursor, files@),
{
    let n = files.len();
    let fallback: usize = if n == 0 { 0 } else if cursor < n { cursor } else { n - 1 };
    match old_id {
        Some(id) => match position_of(files, id) {
            Some(i) => {
                proof {
                    let c = choose|q: int| 0 <= q < files@.len() && (#[trigger] files@[q]).id == id
                        && forall|j: int| 0 <= j < q ==> (#[trigger] files@[j]).id != id;
                    if c < i {
                    } else if c > i {
                        assert(files@[i as int].id == id);
                    }
                }
                i
            },
            None => fallback,
        },
        None => fallback,
    }
}

impl Nav {
    /// Whether an event concerns the visible list: always in a collection,
    /// and in a directory when it names that directory.
    pub open spec fn concerns(&self, ev: FsEvent) -> bool {
        self.collection_mode.is_some() || crate::watch::event_dir(ev) == self.current_dir@
    }

    /// Re-reads the visible list after a watcher event that concerns it and
    /// keeps the cursor on its file. Returns whether the file under the
    /// cursor changed, which is when the display step has to run again.
    pub fn on_fs_event(&mut self, db: &Db, ev: &FsEvent) -> (redisplay: bool)
        requires
            db.wf(),
        ensures
            !old(self).concerns(*ev) ==> *final(self) == *old(self) && !redisplay,
            old(self).concerns(*ev) ==> {
                &&& final(self).current_dir == old(self).current_dir
                &&& final(self).collection_mode == old(self).collection_mode
                &&& match old(self).collection_mode {
                    Some(c) => lists_all(final(self).files@, coll_files(db.files@, db.metas@, c), db.metas@),
                    None => lists_all(final(self).files@, dir_files(db.files@, old(self).current_dir@), db.metas@),
                }
                &&& final(self).cursor as int == kept_cursor(old(self).current_id(), old(self).cursor, final(self).files@)
                &&& redisplay == (final(self).current_id() != old(self).current_id())
            },
    {
        let concerns = match self.collection_mode {
            Some(_) => true,
            None => match ev {
                FsEvent::Changed(d) => str_eq(d.as_str(), self.current_dir.as_str()),
                FsEvent::Removed(d) => str_eq(d.as_str(), self.current_dir.as_str()),
            },
        };
        if !concerns {
            return false;
        }
        let old_id: Option<i64> = if self.cursor < self.files.len() { Some(self.files[self.cursor].id) } else { None };
        let files = match self.collection_mode {
            Some(c) => db.files_by_collection(c),
            None => db.files_by_dir(self.current_dir.as_str()),
        };
        let cursor = refresh_cursor(old_id, self.cursor, &files);
        self.files = files;
        self.cursor = cursor;
        let new_id: Option<i64> = if self.cursor < self.files.len() { Some(self.files[self.cursor].id) } else { None };
        new_id != old_id
    }
}

/// A refresh that still lists the file under the cursor leaves the cursor on
/// that file and does not run the display step again.
pub proof fn law_refresh_keeps_current(old_id: i64, cursor: usize, files: Seq<FileEntry>)
    requires
        exists|i: int| 0 <= i < files.len() && (#[trigger] files[i]).id == old_id,
    ensures
        0 <= kept_cursor(Some(old_id), cursor, files) < files.len(),
        files[kept_cursor(Some(old_id), cursor, files)].id == old_id,
{
    let w = choose|i: int| 0 <= i < files.len() && (#[trigger] files[i]).id == old_id;
    lemma_first_with_id(files, old_id, w);
}

proof fn lemma_first_with_id(files: Seq<FileEntry>, id: i64, w: int)
    requires
        0 <= w < files.len(),
        files[w].id == id,
    ensures
        exists|i: int| 0 <= i < files.len() && (#[trigger] files[i]).id == id && forall|j: int| 0 <= j < i ==> (#[trigger] files[j]).id != id,
    decreases w,
{
    if exists|j: int| 0 <= j < w && (#[trigger] files[j]).id == id {
        let j = choose|j: int| 0 <= j < w && (#[trigger] files[j]).id == id;
        lemma_first_with_id(files, id, j);
    } else {
        assert(forall|j: int| 0 <= j < w ==> (#[trigger] files[j]).id != id);
    }
}

} // verus!
