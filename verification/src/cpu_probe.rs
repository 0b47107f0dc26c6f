//! How long the processor works on a frame, without the time it waits for the display.

use vstd::prelude::*;

verus! {

/// Points in time of one frame, in nanoseconds. Each is set only once the one before it is.
#[derive(Debug, Clone, Copy, PartialEq, Eq, Structural)]
pub struct FrameMarks {
    pub start: Option<u64>,
    pub extract: Option<u64>,
    pub create_views: Option<u64>,
    pub queue: Option<u64>,
    pub graph: Option<u64>,
    pub submit: Option<u64>,
}

/// Spans of one frame, in nanoseconds.
#[derive(Debug, Clone, Copy, PartialEq, Eq, Structural)]
pub struct CpuTiming {
    /// All spans but the wait for a surface.
    pub total: u64,
    pub seg_main: u64,
    pub seg_pre: u64,
    /// The wait for a surface lies in here.
    pub seg_acq: u64,
    pub seg_prep: u64,
    pub seg_graph: u64,
    pub seg_submit: u64,
}

/// The frame has passed all points.
pub open spec fn complete(m: FrameMarks) -> bool {
    m.start is Some && m.extract is Some && m.create_views is Some && m.queue is Some && m.graph is Some
        && m.submit is Some
}

/// Time does not run backwards.
pub open spec fn in_order(m: FrameMarks, now: u64) -> bool {
    complete(m) ==> m.start->0 <= m.extract->0 <= m.create_views->0 <= m.queue->0 <= m.graph->0
        <= m.submit->0 <= now
}

impl FrameMarks {
    pub open spec fn none() -> FrameMarks {
        FrameMarks {
            start: None,
            extract: None,
            create_views: None,
            queue: None,
            graph: None,
            submit: None,
        }
    }

    pub fn new() -> (r: Self)
        ensures
            r == Self::none(),
    {
        FrameMarks {
            start: None,
            extract: None,
            create_views: None,
            queue: None,
            graph: None,
            submit: None,
        }
    }

    /// The main world is done; `start` is when its frame began.
    pub fn mark_extract(&mut self, start: Option<u64>, now: u64)
        ensures
            *final(self) == (FrameMarks {
                start: if start is Some {
                    start
                } else {
                    old(self).start
                },
                extract: Some(now),
                ..*old(self)
            }),
    {
        if start.is_some() {
            self.start = start;
        }
        self.extract = Some(now);
    }

    pub fn mark_create_views(&mut self, now: u64)
        ensures
            *final(self) == (if old(self).start is Some {
                FrameMarks { create_views: Some(now), ..*old(self) }
            } else {
                *old(self)
            }),
    {
        if self.start.is_some() {
            self.create_views = Some(now);
        }
    }

    pub fn mark_queue(&mut self, now: u64)
        ensures
            *final(self) == (if old(self).create_views is Some {
                FrameMarks { queue: Some(now), ..*old(self) }
            } else {
                *old(self)
            }),
    {
        if self.create_views.is_some() {
            self.queue = Some(now);
        }
    }

    pub fn mark_graph_begin(&mut self, now: u64)
        ensures
            *final(self) == (if old(self).queue is Some {
                FrameMarks { graph: Some(now), ..*old(self) }
            } else {
                *old(self)
            }),
    {
        if self.queue.is_some() {
            self.graph = Some(now);
        }
    }

    pub fn mark_submit(&mut self, now: u64)
        ensures
            *final(self) == (if old(self).graph is Some {
                FrameMarks { submit: Some(now), ..*old(self) }
            } else {
                *old(self)
            }),
    {
        if self.graph.is_some() {
            self.submit = Some(now);
        }
    }

    /// The frame is over: its spans, if it passed all points. The marks start anew.
    pub fn finish(&mut self, now: u64) -> (r: Option<CpuTiming>)
        requires
            in_order(*old(self), now),
        ensures
            *final(self) == Self::none(),
            match r {
                None => !complete(*old(self)),
                Some(t) => {
                    let m = *old(self);
                    &&& complete(m)
                    &&& t.seg_main == m.extract->0 - m.start->0
                    &&& t.seg_pre == m.create_views->0 - m.extract->0
                    &&& t.seg_acq == m.queue->0 - m.create_views->0
                    &&& t.seg_prep == m.graph->0 - m.queue->0
                    &&& t.seg_graph == m.submit->0 - m.graph->0
                    &&& t.seg_submit == now - m.submit->0
                    &&& t.total == t.seg_main + t.seg_pre + t.seg_prep + t.seg_graph + t.seg_submit
                    &&& t.total + t.seg_acq == now - m.start->0
                },
            },
    {
        let m: FrameMarks = *self;
        *self = FrameMarks::new();
        match (m.start, m.extract, m.create_views, m.queue, m.graph, m.submit) {
            (Some(t0), Some(te), Some(t1), Some(t2), Some(t3), Some(t4)) => {
                let seg_main: u64 = te - t0;
                let seg_pre: u64 = t1 - te;
                let seg_acq: u64 = t2 - t1;
                let seg_prep: u64 = t3 - t2;
                let seg_graph: u64 = t4 - t3;
                let seg_submit: u64 = now - t4;
                let total: u64 = seg_main + seg_pre + seg_prep + seg_graph + seg_submit;
                Some(
                    CpuTiming { total, seg_main, seg_pre, seg_acq, seg_prep, seg_graph, seg_submit },
                )
            },
            _ => None,
        }
    }
}

} // verus!
