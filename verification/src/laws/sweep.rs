//! The wrapping display.
use crate::view::{Column, Place};
use vstd::prelude::*;

verus! {

/// A place that the head has passed on this lap shows this lap. One ahead of it shows the lap
/// before, on every lap but the first, unless that lies before the capture.
pub proof fn law_a_place_shows_the_newest_audio_there(lap: u64, place: Place)
    ensures
        !place.ahead ==> crate::view::shown(lap, place) == Some(place.frame),
        place.ahead && lap >= 1 && !place.before_capture ==> crate::view::shown(lap, place) == Some(
            place.previous,
        ),
        place.ahead && lap == 0 ==> crate::view::shown(lap, place) is None,
        place.ahead && place.before_capture ==> crate::view::shown(lap, place) is None,
{
}

/// From the second lap on it makes no difference which lap it is.
pub proof fn law_every_later_lap_shows_the_same(lap: u64, other: u64, left: Place, right: Place)
    requires
        lap >= 1,
        other >= 1,
    ensures
        crate::view::shown(lap, left) == crate::view::shown(other, left),
        forall|head: u64|
            #[trigger] crate::view::span_of(head, lap, left, right) == crate::view::span_of(
                head,
                other,
                left,
                right,
            ),
{
}

/// What a click picks is what is drawn there: where a column between two places on one side of the
/// head draws anything, it begins with the frame shown at its left one, and where that shows
/// nothing it draws nothing.
pub proof fn law_a_click_picks_what_is_drawn(head: u64, lap: u64, left: Place, right: Place)
    requires
        left.ahead == right.ahead,
    ensures
        ({
            let column = crate::view::column_of(
                head,
                crate::view::span_of(head, lap, left, right),
            );
            &&& crate::view::shown(lap, left) is None ==> column.count == 0
            &&& crate::view::shown(lap, left) matches Some(frame) ==> (frame < head ==> column.count
                >= 1 && column.start == frame)
        }),
{
}

/// A column whose right place the head has passed is of this lap.
pub proof fn law_a_column_behind_the_head_is_of_this_lap(
    head: u64,
    lap: u64,
    left: Place,
    right: Place,
)
    requires
        !right.ahead,
    ensures
        crate::view::span_of(head, lap, left, right) == Some((left.frame, right.frame)),
{
}

/// A column of this lap draws what lies between its two places, as far as the head, and at least
/// one sample of it.
pub proof fn law_a_column_of_this_lap_draws_what_lies_under_it(
    head: u64,
    lap: u64,
    left: Place,
    right: Place,
)
    requires
        !left.ahead,
        !right.ahead,
        left.frame < head,
    ensures
        ({
            let column = crate::view::column_of(
                head,
                crate::view::span_of(head, lap, left, right),
            );
            let stop = if right.frame < head {
                right.frame
            } else {
                head
            };
            &&& column.start == left.frame
            &&& left.frame < stop && stop - left.frame <= u32::MAX ==> column.start + column.count
                == stop
            &&& left.frame < stop && stop - left.frame > u32::MAX ==> column.count == u32::MAX
            &&& left.frame >= stop ==> column.count == 1
        }),
{
}

/// A column ahead of the head draws what lay between its two places on the lap before, as far as
/// the head, and nothing where there was no such lap.
pub proof fn law_a_column_ahead_draws_the_lap_before(
    head: u64,
    lap: u64,
    left: Place,
    right: Place,
)
    requires
        left.ahead,
        right.ahead,
    ensures
        ({
            let column = crate::view::column_of(
                head,
                crate::view::span_of(head, lap, left, right),
            );
            let stop = if right.previous < head {
                right.previous
            } else {
                head
            };
            &&& lap == 0 || left.before_capture ==> column.count == 0
            &&& lap > 0 && !left.before_capture && left.previous < head ==> {
                &&& column.start == left.previous
                &&& left.previous < stop && stop - left.previous <= u32::MAX ==> column.start
                    + column.count == stop
                &&& left.previous < stop && stop - left.previous > u32::MAX ==> column.count
                    == u32::MAX
                &&& left.previous >= stop ==> column.count == 1
            }
            &&& lap > 0 && !left.before_capture && left.previous >= head ==> column.count == 0
        }),
{
}

/// A column that the head stands in draws this lap up to the head; where that is nothing it draws
/// the lap before, like the columns to its right.
pub proof fn law_a_column_under_the_head_stops_there(
    head: u64,
    lap: u64,
    left: Place,
    right: Place,
)
    requires
        !left.ahead,
        right.ahead,
    ensures
        crate::view::span_of(head, lap, left, right) == if left.frame < head {
            Some((left.frame, head))
        } else if lap > 0 && !left.before_capture {
            Some((left.previous, right.previous))
        } else {
            None
        },
{
}

/// A column draws a part of its span, and only what was captured.
pub proof fn law_a_column_draws_only_its_span(head: u64, start: u64, end: u64)
    ensures
        ({
            let column = crate::view::column_of(head, Some((start, end)));
            &&& column.count > 0 ==> column.start == start && start < head
            &&& column.start + column.count <= head
            &&& column.count > 1 ==> column.start + column.count <= end
            &&& start >= head ==> column.count == 0
            &&& start < head ==> column.count >= 1
        }),
        crate::view::column_of(head, None) == (Column { start: 0, count: 0 }),
{
}

} // verus!
