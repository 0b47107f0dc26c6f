//! How long frames take, and how much of that the renderer itself works.

use vstd::prelude::*;

verus! {

/// Frames of one report.
pub const GAP_FRAMES: u32 = 60;

/// Sums over the frames since the last report, in nanoseconds.
#[derive(Debug, Clone, Copy, PartialEq, Eq, Structural)]
pub struct DiagFrameGap {
    /// When the frame before ended.
    pub prev_end: Option<u64>,
    /// When the renderer began to work on the frame.
    pub busy0: Option<u64>,
    pub acc: u64,
    pub acc_busy: u64,
    pub n: u32,
}

/// What a number of frames took, in nanoseconds.
#[derive(Debug, Clone, Copy, PartialEq, Eq, Structural)]
pub struct GapReport {
    pub frames: u32,
    /// From the end of a frame to the end of the next.
    pub total: u64,
    /// The part of it in which the renderer worked.
    pub busy: u64,
}

impl Default for DiagFrameGap {
    fn default() -> (r: Self)
        ensures
            r == (DiagFrameGap { prev_end: None, busy0: None, acc: 0, acc_busy: 0, n: 0 }),
    {
        DiagFrameGap { prev_end: None, busy0: None, acc: 0, acc_busy: 0, n: 0 }
    }
}

impl DiagFrameGap {
    /// Fewer frames are summed than make a report.
    pub open spec fn wf(&self) -> bool {
        self.n < GAP_FRAMES
    }

    /// The renderer begins to work.
    pub fn diag_gap_begin(&mut self, now: u64)
        ensures
            *final(self) == (DiagFrameGap { busy0: Some(now), ..*old(self) }),
    {
        self.busy0 = Some(now);
    }

    /// The frame ends. The first one only sets the start; after that, every sixtieth gives a report
    /// and the sums begin anew.
    pub fn diag_gap_end(&mut self, now: u64) -> (r: Option<GapReport>)
        requires
            old(self).wf(),
            old(self).prev_end is Some && old(self).busy0 is Some ==> {
                &&& old(self).prev_end->0 <= now
                &&& old(self).busy0->0 <= now
                &&& old(self).acc + (now - old(self).prev_end->0) <= u64::MAX
                &&& old(self).acc_busy + (now - old(self).busy0->0) <= u64::MAX
            },
        ensures
            final(self).wf(),
            final(self).prev_end == Some(now),
            final(self).busy0 == old(self).busy0,
            ({
                let counted = old(self).prev_end is Some && old(self).busy0 is Some;
                let total = old(self).acc + (now - old(self).prev_end->0);
                let busy = old(self).acc_busy + (now - old(self).busy0->0);
                let due = counted && old(self).n + 1 == GAP_FRAMES;
                &&& r is Some <==> due
                &&& due ==> r == Some(
                    GapReport { frames: GAP_FRAMES, total: total as u64, busy: busy as u64 },
                ) && final(self).acc == 0 && final(self).acc_busy == 0 && final(self).n == 0
                &&& counted && !due ==> final(self).acc == total && final(self).acc_busy == busy
                    && final(self).n == old(self).n + 1
                &&& !counted ==> final(self).acc == old(self).acc && final(self).acc_busy == old(
                    self,
                ).acc_busy && final(self).n == old(self).n
            }),
    {
        let start: Option<u64> = self.prev_end;
        self.prev_end = Some(now);
        match (start, self.busy0) {
            (Some(t0), Some(b0)) => {
                self.acc = self.acc + (now - t0);
                self.acc_busy = self.acc_busy + (now - b0);
                self.n = self.n + 1;
                if self.n >= GAP_FRAMES {
                    let report: GapReport = GapReport {
                        frames: self.n,
                        total: self.acc,
                        busy: self.acc_busy,
                    };
                    self.acc = 0;
                    self.acc_busy = 0;
                    self.n = 0;
                    Some(report)
                } else {
                    None
                }
            },
            _ => None,
        }
    }
}

} // verus!
