//! The background job engine's decisions: metadata layers, their order, the
//! shared counters, and the throttle that paces the workers.

use vstd::prelude::*;
use crate::store::{candidates, Db};
use crate::text::str_eq;

verus! {

/// A metadata layer, in the order workers look for missing work.
#[derive(PartialEq, Eq, Structural, Clone, Copy, Debug, Hash)]
pub enum Layer {
    Hash,
    Exif,
    AiBasic,
}

impl Layer {
    /// The layer's name as stored in the failure ledger.
    pub fn name(&self) -> (r: &'static str)
        ensures
            r@ == layer_name_spec(*self),
    {
        match self {
            Layer::Hash => "hash",
            Layer::Exif => "exif",
            Layer::AiBasic => "ai_basic",
        }
    }
}

pub open spec fn layer_name_spec(l: Layer) -> Seq<char> {
    match l {
        Layer::Hash => "hash"@,
        Layer::Exif => "exif"@,
        Layer::AiBasic => "ai_basic"@,
    }
}

/// The layers in the order they are tried.
pub fn layers() -> (r: Vec<Layer>)
    ensures
        r@ == seq![Layer::Hash, Layer::Exif, Layer::AiBasic],
{
    vec![Layer::Hash, Layer::Exif, Layer::AiBasic]
}

/// Counters shared with the display: jobs done and failed, jobs running,
/// the turbo switch, the last error, and the sampled rate.
pub struct JobStats {
    pub done: u64,
    pub failed: u64,
    pub active: u32,
    pub turbo: bool,
    pub last_error: String,
    /// `done` when the rate was last sampled.
    pub rate_snapshot: u64,
    /// When the rate was last sampled, in milliseconds of a monotonic clock.
    pub rate_time_ms: u64,
    /// Jobs per minute, times ten (one decimal).
    pub jobs_per_min: u32,
}

/// The longest error text kept, in characters.
pub const LAST_ERROR_MAX: usize = 120;

impl JobStats {
    /// All counters zero, sampling from `now_ms`.
    pub fn new(now_ms: u64) -> (r: JobStats)
        ensures
            r.done == 0 && r.failed == 0 && r.active == 0 && !r.turbo,
            r.last_error@.len() == 0,
            r.rate_snapshot == 0 && r.rate_time_ms == now_ms && r.jobs_per_min == 0,
    {
        JobStats {
            done: 0,
            failed: 0,
            active: 0,
            turbo: false,
            last_error: String::new(),
            rate_snapshot: 0,
            rate_time_ms: now_ms,
            jobs_per_min: 0,
        }
    }

    /// Counts a finished job.
    pub fn record_done(&mut self)
        ensures
            final(self).done == if old(self).done < u64::MAX { old(self).done + 1 } else { old(self).done as int },
            final(self).failed == old(self).failed,
    {
        self.done = self.done.saturating_add(1);
    }

    /// Counts a failed job and keeps the first `LAST_ERROR_MAX` characters of its error.
    pub fn record_fail(&mut self, err: &str)
        ensures
            final(self).failed == if old(self).failed < u64::MAX { old(self).failed + 1 } else { old(self).failed as int },
            final(self).done == old(self).done,
            final(self).last_error@ == err@.subrange(0, if err@.len() < 120 { err@.len() as int } else { 120 }),
    {
        self.failed = self.failed.saturating_add(1);
        let n = err.unicode_len();
        let keep = if n < LAST_ERROR_MAX { n } else { LAST_ERROR_MAX };
        self.last_error = String::from_str(err.substring_char(0, keep));
    }

    /// A copy of the last error text.
    pub fn last_error(&self) -> (r: String)
        ensures
            r@ == self.last_error@,
    {
        self.last_error.clone()
    }

    /// Samples the rate at `now_ms`: when more than half a second has passed
    /// since the last sample, `jobs_per_min` becomes the jobs done since then
    /// per minute, times ten. The snapshot of `done` is taken either way.
    pub fn update_rate(&mut self, now_ms: u64)
        ensures
            final(self).rate_snapshot == old(self).done,
            final(self).done == old(self).done,
            ({
                let elapsed = if now_ms >= old(self).rate_time_ms { now_ms - old(self).rate_time_ms } else { 0 };
                let delta = if old(self).done >= old(self).rate_snapshot { old(self).done - old(self).rate_snapshot } else { 0 };
                let rate = delta * 600000 / elapsed;
                if elapsed > 500 {
                    final(self).jobs_per_min == (if rate > u32::MAX { u32::MAX as int } else { rate })
                        && final(self).rate_time_ms == now_ms
                } else {
                    final(self).jobs_per_min == old(self).jobs_per_min && final(self).rate_time_ms == old(self).rate_time_ms
                }
            }),
    {
        let done_now = self.done;
        let prev = self.rate_snapshot;
        self.rate_snapshot = done_now;
        let elapsed: u64 = if now_ms >= self.rate_time_ms { now_ms - self.rate_time_ms } else { 0 };
        if elapsed > 500 {
            let delta: u64 = if done_now >= prev { done_now - prev } else { 0 };
            let rate: u128 = (delta as u128) * 600000 / (elapsed as u128);
            self.jobs_per_min = if rate > u32::MAX as u128 { u32::MAX } else { rate as u32 };
            self.rate_time_ms = now_ms;
        }
    }
}

/// How long a worker rests after a job that took `elapsed_ms`: a quarter of
/// it in turbo mode, 2.3 times it otherwise, and never more than five seconds.
pub fn throttle_ms(elapsed_ms: u64, turbo: bool) -> (r: u64)
    ensures
        r as int == if turbo {
            if elapsed_ms / 4 < 5000 { (elapsed_ms / 4) as int } else { 5000 }
        } else {
            if elapsed_ms as int * 23 / 10 < 5000 { elapsed_ms as int * 23 / 10 } else { 5000 }
        },
{
    let t: u128 = if turbo { elapsed_ms as u128 / 4 } else { elapsed_ms as u128 * 23 / 10 };
    if t < 5000 { t as u64 } else { 5000 }
}

/// How long a worker idles when it found no work.
pub fn idle_ms(turbo: bool) -> (r: u64)
    ensures
        r == if turbo { 3000u64 } else { 10000u64 },
{
    if turbo { 3000 } else { 10000 }
}

/// How many workers to start: half the processors, at least one and at most four.
pub fn worker_count(cpus: usize) -> (r: usize)
    ensures
        r == if cpus / 2 < 1 { 1 } else if cpus / 2 > 4 { 4 } else { cpus / 2 },
{
    let half = cpus / 2;
    if half < 1 { 1 } else if half > 4 { 4 } else { half }
}

/// Worker 0 always runs; the others only in turbo mode.
pub fn worker_runs(worker_id: usize, turbo: bool) -> (r: bool)
    ensures
        r == (worker_id == 0 || turbo),
{
    worker_id == 0 || turbo
}

/// The first layer, in order, that has work, and the file picked for it
/// with `pick`; `None` when no layer has work.
pub fn find_work(db: &Db, pick: u64) -> (r: Option<(i64, Layer, String)>)
    requires
        db.wf(),
    ensures
        ({
            let h = candidates(db.files@, db.metas@, db.failures@, Layer::Hash);
            let e = candidates(db.files@, db.metas@, db.failures@, Layer::Exif);
            let a = candidates(db.files@, db.metas@, db.failures@, Layer::AiBasic);
            match r {
                None => h.len() == 0 && e.len() == 0 && a.len() == 0,
                Some((id, l, p)) => {
                    let c = candidates(db.files@, db.metas@, db.failures@, l);
                    &&& c.len() > 0
                    &&& (l == Layer::Exif ==> h.len() == 0)
                    &&& (l == Layer::AiBasic ==> h.len() == 0 && e.len() == 0)
                    &&& c[(pick as int) % (c.len() as int)].id == id
                    &&& c[(pick as int) % (c.len() as int)].path@ == p@
                },
            }
        }),
{
    match db.next_missing(Layer::Hash, pick) {
        Some((id, p)) => return Some((id, Layer::Hash, p)),
        None => {},
    }
    match db.next_missing(Layer::Exif, pick) {
        Some((id, p)) => return Some((id, Layer::Exif, p)),
        None => {},
    }
    match db.next_missing(Layer::AiBasic, pick) {
        Some((id, p)) => Some((id, Layer::AiBasic, p)),
        None => None,
    }
}

/// The short format tag recorded with an image's dimensions.
pub open spec fn format_tag_spec(ext: Seq<char>) -> Seq<char> {
    if ext == "jpg"@ || ext == "jpeg"@ {
        "JPEG"@
    } else if ext == "png"@ {
        "PNG"@
    } else if ext == "webp"@ {
        "WebP"@
    } else if ext == "gif"@ {
        "GIF"@
    } else if ext == "bmp"@ {
        "BMP"@
    } else if ext == "tiff"@ || ext == "tif"@ {
        "TIFF"@
    } else {
        "Unknown"@
    }
}

/// The format tag for a lowercased extension.
pub fn format_tag(ext: &str) -> (r: &'static str)
    ensures
        r@ == format_tag_spec(ext@),
{
    if str_eq(ext, "jpg") || str_eq(ext, "jpeg") {
        "JPEG"
    } else if str_eq(ext, "png") {
        "PNG"
    } else if str_eq(ext, "webp") {
        "WebP"
    } else if str_eq(ext, "gif") {
        "GIF"
    } else if str_eq(ext, "bmp") {
        "BMP"
    } else if str_eq(ext, "tiff") || str_eq(ext, "tif") {
        "TIFF"
    } else {
        "Unknown"
    }
}

/// The generator text stored for an image: the prompt, the model, or both
/// separated by a blank line; `None` when both are empty.
pub open spec fn generator_text_spec(prompt: Seq<char>, model: Seq<char>) -> Option<Seq<char>> {
    if model.len() == 0 {
        if prompt.len() == 0 { None } else { Some(prompt) }
    } else if prompt.len() == 0 {
        Some("model: "@ + model)
    } else {
        Some(prompt + "\n\nmodel: "@ + model)
    }
}

/// Composes the generator text from a prompt and a model name.
pub fn generator_text(prompt: &str, model: &str) -> (r: Option<String>)
    ensures
        match (r, generator_text_spec(prompt@, model@)) {
            (Some(s), Some(t)) => s@ == t,
            (None, None) => true,
            _ => false,
        },
{
    let pl = prompt.unicode_len();
    let ml = model.unicode_len();
    if ml == 0 {
        if pl == 0 { None } else { Some(String::from_str(prompt)) }
    } else if pl == 0 {
        let mut s = String::from_str("model: ");
        s.append(model);
        Some(s)
    } else {
        let mut s = String::from_str(prompt);
        s.append("\n\nmodel: ");
        s.append(model);
        Some(s)
    }
}

} // verus!
