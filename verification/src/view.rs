//! What the canvas is looking at.
//!
//! The display wraps rather than scrolls: the axis is the whole window, the write head sweeps left
//! to right and starts again at the beginning, and new audio paints over old. A place on the canvas
//! therefore shows this lap up to the head, and the previous lap beyond it.
//!
//! A viewport is generic in the number type of its bar positions. What a place on the canvas is in
//! bars and frames is worked out in that type; which of it is shown is decided here.
use crate::ask::ask;
use vstd::prelude::*;

verus! {

/// The view resolved against the clock, once per painted frame.
#[derive(Clone, Copy, Debug, PartialEq)]
pub struct Viewport<N> {
    /// Absolute bar position of the start of the current lap.
    pub lap_start_bars: N,
    /// Absolute bar position of the left edge of the canvas.
    pub left_bars: N,
    pub span_bars: N,
    pub window_bars: N,
    /// Absolute bar position of the write head.
    pub head_bars: N,
    /// The write head as a frame index. A column that straddles the head has to stop at exactly
    /// the frame that the ring stops at.
    pub head_frame: u64,
    /// Which lap the head is on. Zero before the first wrap.
    pub lap: u64,
    /// Canvas width in pixels.
    pub columns: u32,
}

/// A place on the canvas.
#[derive(Clone, Copy, Debug)]
pub struct Place {
    /// It lies to the right of the write head.
    pub ahead: bool,
    /// One window earlier there was no capture yet.
    pub before_capture: bool,
    /// The frame of this lap there.
    pub frame: u64,
    /// The frame of the previous lap there.
    pub previous: u64,
}

/// One pixel column's source range in the ring.
///
/// `count == 0` means that nothing has been captured there, which is different from silence and
/// has to be drawn differently.
#[derive(Clone, Copy, Debug, PartialEq, Eq, Structural)]
pub struct Column {
    pub start: u64,
    pub count: u32,
}

/// There is a previous lap to show at a place.
pub open spec fn has_previous(lap: u64, place: Place) -> bool {
    lap > 0 && !place.before_capture
}

/// The frame shown at a place, where there is one.
pub open spec fn shown(lap: u64, place: Place) -> Option<u64> {
    if !place.ahead {
        Some(place.frame)
    } else if has_previous(lap, place) {
        Some(place.previous)
    } else {
        None
    }
}

/// The frames between two places, where there are any: of this lap up to the head, and of the
/// previous one beyond it. A column that straddles the head stops at it; one whose share of this
/// lap is nothing at all shows the previous lap like the columns to its right.
pub open spec fn span_of(head: u64, lap: u64, left: Place, right: Place) -> Option<(u64, u64)> {
    if !right.ahead {
        Some((left.frame, right.frame))
    } else if !left.ahead && left.frame < head {
        Some((left.frame, head))
    } else if has_previous(lap, left) {
        Some((left.previous, right.previous))
    } else {
        None
    }
}

/// The column that shows a span. Nothing reads past the head; what is narrower than one sample
/// still names the sample under it.
pub open spec fn column_of(head: u64, span: Option<(u64, u64)>) -> Column {
    match span {
        None => Column { start: 0, count: 0 },
        Some((start, end)) => {
            let stop = if end < head {
                end
            } else {
                head
            };
            if stop > start {
                Column {
                    start,
                    count: if stop - start > u32::MAX {
                        u32::MAX
                    } else {
                        (stop - start) as u32
                    },
                }
            } else if start < head {
                Column { start, count: 1 }
            } else {
                Column { start: 0, count: 0 }
            }
        },
    }
}

impl<N> Viewport<N> {
    /// The frame shown at a place, or `None` where nothing has been captured yet.
    ///
    /// This is where wrapping happens. A place to the right of the head has not been written this
    /// lap, so it still shows the previous one. On the very first lap there is no previous one.
    pub fn frame_at(&self, place: &Place) -> (frame: Option<u64>)
        ensures
            frame == shown(self.lap, *place),
    {
        if !place.ahead {
            return Some(place.frame);
        }
        if place.before_capture || self.lap == 0 {
            return None;
        }
        Some(place.previous)
    }

    /// The frames that a column between two places draws from, or `None` where nothing is captured
    /// yet. The right place does not lie behind the head where the left one lies ahead of it.
    pub fn frame_span(&self, left: &Place, right: &Place) -> (span: Option<(u64, u64)>)
        requires
            left.ahead ==> right.ahead,
        ensures
            span == span_of(self.head_frame, self.lap, *left, *right),
    {
        if !right.ahead {
            return Some((left.frame, right.frame));
        }
        if !left.ahead && left.frame < self.head_frame {
            return Some((left.frame, self.head_frame));
        }
        if self.lap == 0 || left.before_capture {
            return None;
        }
        Some((left.previous, right.previous))
    }

    /// What a span comes to as a column.
    fn column(&self, span: Option<(u64, u64)>) -> (column: Column)
        ensures
            column == column_of(self.head_frame, span),
    {
        match span {
            None => Column { start: 0, count: 0 },
            Some((start, end)) => {
                // The frame at the head has not been written yet, and a column that reached it
                // would reduce whatever the ring holds from a lap ago into the edge of the sweep.
                let stop: u64 = if end < self.head_frame {
                    end
                } else {
                    self.head_frame
                };
                if stop > start {
                    let width: u64 = stop - start;
                    Column {
                        start,
                        count: if width > u32::MAX as u64 {
                            u32::MAX
                        } else {
                            width as u32
                        },
                    }
                } else if start < self.head_frame {
                    Column { start, count: 1 }
                } else {
                    Column { start: 0, count: 0 }
                }
            },
        }
    }

    /// One entry per column: the ring range that each pixel reduces.
    ///
    /// `place` says what lies at each of the edges between columns, counted from the left. Places
    /// ahead of the head stay ahead of it to the right.
    pub fn columns<P: Fn(u32) -> Place>(&self, place: P) -> (out: Vec<Column>)
        requires
            crate::ask::consistent(place),
            forall|c: u32, d: u32, left: Place, right: Place|
                #[trigger] place.ensures((c,), left) && #[trigger] place.ensures((d,), right) && d
                    == c + 1 && c < self.columns && left.ahead ==> right.ahead,
        ensures
            out@ == Seq::new(
                self.columns as nat,
                |c: int|
                    column_of(
                        self.head_frame,
                        span_of(
                            self.head_frame,
                            self.lap,
                            crate::ask::answer(place, c as u32),
                            crate::ask::answer(place, (c + 1) as u32),
                        ),
                    ),
            ),
            forall|c: u32|
                self.columns > 0 && c <= self.columns ==> place.ensures(
                    (c,),
                    #[trigger] crate::ask::answer(place, c),
                ),
    {
        let mut out: Vec<Column> = Vec::new();
        let mut c: u32 = 0;
        while c < self.columns
            invariant
                c <= self.columns,
                crate::ask::consistent(place),
                forall|c: u32, d: u32, left: Place, right: Place|
                    #[trigger] place.ensures((c,), left) && #[trigger] place.ensures((d,), right)
                        && d == c + 1 && c < self.columns && left.ahead ==> right.ahead,
                out@.len() == c,
                forall|d: u32|
                    c > 0 && d <= c ==> place.ensures((d,), #[trigger] crate::ask::answer(place, d)),
                forall|d: int|
                    0 <= d < c ==> #[trigger] out@[d] == column_of(
                        self.head_frame,
                        span_of(
                            self.head_frame,
                            self.lap,
                            crate::ask::answer(place, d as u32),
                            crate::ask::answer(place, (d + 1) as u32),
                        ),
                    ),
            decreases self.columns - c,
        {
            let left = ask(&place, c);
            let right = ask(&place, c + 1);
            out.push(self.column(self.frame_span(&left, &right)));
            c = c + 1;
        }
        assert(out@ =~= Seq::new(
            self.columns as nat,
            |c: int|
                column_of(
                    self.head_frame,
                    span_of(
                        self.head_frame,
                        self.lap,
                        crate::ask::answer(place, c as u32),
                        crate::ask::answer(place, (c + 1) as u32),
                    ),
                ),
        ));
        out
    }
}

/// No column reads past the write head.
pub proof fn law_no_column_reads_past_the_head(head: u64, span: Option<(u64, u64)>)
    ensures
        column_of(head, span).start + column_of(head, span).count <= head,
{
}

/// The frame that a place of the current side of the head reads from.
pub open spec fn source(place: Place) -> u64 {
    if place.ahead {
        place.previous
    } else {
        place.frame
    }
}

/// Columns tile: on the same side of the head one column ends where the next one begins, so the
/// head is the only place where the picture jumps.
pub proof fn law_columns_tile_on_each_side_of_the_head(
    head: u64,
    lap: u64,
    a: Place,
    b: Place,
    c: Place,
)
    requires
        a.ahead == b.ahead,
        b.ahead == c.ahead,
        a.ahead ==> has_previous(lap, a) && has_previous(lap, b),
        source(a) < source(b) < source(c) <= head,
        source(b) - source(a) <= u32::MAX,
    ensures
        ({
            let left = column_of(head, span_of(head, lap, a, b));
            let right = column_of(head, span_of(head, lap, b, c));
            &&& left.start == source(a)
            &&& left.start + left.count == right.start
        }),
{
}

/// A column narrower than a sample still names one, as long as it begins before the head: a
/// zoomed-in trace does not go blank between samples.
pub proof fn law_a_narrow_column_names_a_sample(head: u64, start: u64, end: u64)
    requires
        start < head,
    ensures
        column_of(head, Some((start, end))).count >= 1,
        column_of(head, Some((start, end))).start == start,
{
}

/// A column that straddles the head stops exactly there.
pub proof fn law_a_straddling_column_stops_at_the_head(
    head: u64,
    lap: u64,
    left: Place,
    right: Place,
)
    requires
        !left.ahead,
        right.ahead,
        left.frame < head,
        head - left.frame <= u32::MAX,
    ensures
        column_of(head, span_of(head, lap, left, right)) == (Column {
            start: left.frame,
            count: (head - left.frame) as u32,
        }),
{
}

/// On the first lap there is nothing ahead of the head: it is empty, not old.
pub proof fn law_the_first_lap_is_empty_ahead_of_the_head(head: u64, left: Place, right: Place)
    requires
        left.ahead,
        right.ahead,
    ensures
        shown(0, left) is None,
        column_of(head, span_of(head, 0, left, right)).count == 0,
{
}

} // verus!
