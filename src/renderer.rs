use vstd::prelude::*;

use crate::config::SUPERSAMPLING;

verus! {

/// What the render loop must do after a sampling pass.
#[derive(Debug, Clone, Copy, PartialEq, Eq, Structural)]
pub enum ProgressAction {
    /// Keep sampling; nothing is written.
    Continue,
    /// Write the snapshot with this number, then keep sampling.
    Snapshot(u32),
    /// Write the snapshot with this number and stop: the next pass would overrun the time limit.
    TimeLimit(u32),
    /// Write the snapshot with this number and stop: the last pass has been taken.
    MaxSampling(u32),
    /// Refresh the image buffer and stop, without writing a snapshot.
    Done,
}

/// What the debug renderer shows for each pixel.
#[derive(Debug, Clone, Copy, PartialEq, Eq, Structural)]
pub enum DebugRenderMode {
    Shading,
    Normal,
    Depth,
    FocalPlane,
}

/// A renderer that takes a single deterministic pass.
#[derive(Debug, Clone, Copy, PartialEq, Eq, Structural)]
pub struct DebugRenderer {
    pub mode: DebugRenderMode,
}

impl DebugRenderer {
    /// One pass is all it ever takes.
    pub fn max_sampling(&self) -> (r: u32)
        ensures
            r == 1,
    {
        1
    }

    /// After its single pass the debug renderer refreshes the image and stops.
    pub fn report_progress(&mut self, sampling: u32) -> (r: ProgressAction)
        ensures
            r == ProgressAction::Done,
            *final(self) == *old(self),
    {
        ProgressAction::Done
    }
}

/// Milliseconds from `from` to `to` on a clock that never runs backwards
/// (a reading earlier than `from` counts as no time at all).
pub open spec fn elapsed(from: u64, to: u64) -> int {
    if to >= from {
        to - from
    } else {
        0
    }
}

/// The progressive path tracer's sampling budget and snapshot bookkeeping.
/// Times are clock readings in milliseconds.
#[derive(Debug, Clone, Copy, PartialEq, Eq, Structural)]
pub struct PathTracingRenderer {
    pub sampling: u32,
    pub time_limit_ms: u64,
    pub report_interval_ms: u64,
    pub begin_ms: u64,
    pub last_report_progress_ms: u64,
    pub last_report_image_ms: u64,
    pub report_image_counter: u32,
}

impl PathTracingRenderer {
    /// Whether a pass as long as the last one, taken with ten percent to spare,
    /// would end past the time limit.
    pub open spec fn over_budget(self, now_ms: u64) -> bool {
        10 * elapsed(self.begin_ms, now_ms) + 11 * elapsed(self.last_report_progress_ms, now_ms)
            > 10 * self.time_limit_ms
    }

    /// Whether the snapshot interval has passed since the last snapshot.
    pub open spec fn interval_passed(self, now_ms: u64) -> bool {
        elapsed(self.last_report_image_ms, now_ms) >= self.report_interval_ms
    }

    /// A renderer that starts its clock at `now_ms` and has written no snapshot yet.
    pub fn new(sampling: u32, time_limit_ms: u64, report_interval_ms: u64, now_ms: u64) -> (r:
        PathTracingRenderer)
        ensures
            r.sampling == sampling,
            r.time_limit_ms == time_limit_ms,
            r.report_interval_ms == report_interval_ms,
            r.begin_ms == now_ms,
            r.last_report_progress_ms == now_ms,
            r.last_report_image_ms == now_ms,
            r.report_image_counter == 0,
    {
        PathTracingRenderer {
            sampling,
            time_limit_ms,
            report_interval_ms,
            begin_ms: now_ms,
            last_report_progress_ms: now_ms,
            last_report_image_ms: now_ms,
            report_image_counter: 0,
        }
    }

    /// Most passes this renderer takes.
    pub fn max_sampling(&self) -> (r: u32)
        ensures
            r == self.sampling,
    {
        self.sampling
    }

    /// Decides, after pass number `sampling` has ended at clock reading `now_ms`,
    /// whether to stop, whether to write a snapshot, and under which number.
    /// The time limit is checked first, then the sample count, then the snapshot interval.
    pub fn report_progress(&mut self, sampling: u32, now_ms: u64) -> (r: ProgressAction)
        ensures
            old(self).over_budget(now_ms) ==> r == ProgressAction::TimeLimit(
                old(self).report_image_counter,
            ) && *final(self) == *old(self),
            !old(self).over_budget(now_ms) && sampling >= old(self).sampling ==> r
                == ProgressAction::MaxSampling(old(self).report_image_counter) && *final(self)
                == *old(self),
            !old(self).over_budget(now_ms) && sampling < old(self).sampling && old(
                self,
            ).interval_passed(now_ms) ==> r == ProgressAction::Snapshot(
                old(self).report_image_counter,
            ) && *final(self) == (PathTracingRenderer {
                report_image_counter: if old(self).report_image_counter < u32::MAX {
                    (old(self).report_image_counter + 1) as u32
                } else {
                    u32::MAX
                },
                last_report_image_ms: now_ms,
                last_report_progress_ms: now_ms,
                ..*old(self)
            }),
            !old(self).over_budget(now_ms) && sampling < old(self).sampling && !old(
                self,
            ).interval_passed(now_ms) ==> r == ProgressAction::Continue && *final(self) == (
            PathTracingRenderer { last_report_progress_ms: now_ms, ..*old(self) }),
    {
        let used = now_ms.saturating_sub(self.begin_ms);
        let from_last_sampling = now_ms.saturating_sub(self.last_report_progress_ms);
        if 10 * (used as u128) + 11 * (from_last_sampling as u128) > 10 * (
        self.time_limit_ms as u128) {
            return ProgressAction::TimeLimit(self.report_image_counter);
        }
        if sampling >= self.sampling {
            return ProgressAction::MaxSampling(self.report_image_counter);
        }
        let from_last_image = now_ms.saturating_sub(self.last_report_image_ms);
        let mut action = ProgressAction::Continue;
        if from_last_image >= self.report_interval_ms {
            action = ProgressAction::Snapshot(self.report_image_counter);
            self.report_image_counter = self.report_image_counter.saturating_add(1);
            self.last_report_image_ms = now_ms;
        }
        self.last_report_progress_ms = now_ms;
        action
    }
}

/// Fragment coordinate of pixel number `index` of a row-major image `width` pixels
/// wide and `height` high: its column, and its row counted up from the bottom edge
/// (the top row is `height`, the bottom row 1).
pub fn frag_coord(index: usize, width: u32, height: u32) -> (r: (u32, u32))
    requires
        width > 0,
        index < width * height,
    ensures
        r.0 == (index as int) % (width as int),
        r.1 == height - (index as int) / (width as int),
{
    proof {
        assert((index as int) / (width as int) < height) by (nonlinear_arith)
            requires
                width > 0,
                index < width * height,
        ;
    }
    let y = (index / (width as usize)) as u32;
    let x = (index % (width as usize)) as u32;
    (x, height - y)
}

/// Paths traced per pixel after `sampling` passes: the pass count times the sub-pixel grid.
pub fn samples_per_pixel(sampling: u32) -> (r: u64)
    ensures
        r == sampling * SUPERSAMPLING * SUPERSAMPLING,
{
    assert(sampling * SUPERSAMPLING * SUPERSAMPLING <= u32::MAX * 4) by (nonlinear_arith)
        requires
            SUPERSAMPLING == 2,
            sampling <= u32::MAX,
    ;
    (sampling as u64) * (SUPERSAMPLING as u64) * (SUPERSAMPLING as u64)
}

} // verus!
