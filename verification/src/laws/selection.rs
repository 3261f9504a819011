//! Selecting: the grid, the number row, and what becomes of a selection.
use crate::grid::{Line, Rule, Ruling, Selection};
use crate::session::SelectionState;
use vstd::arithmetic::power2::*;
use vstd::prelude::*;

verus! {

/// A drag selects from the last line at or before its earlier end to the first one at or after its
/// later end, or to the line after its start where that comes later.
pub proof fn law_a_drag_selects_whole_cells<
    B: Fn(u64) -> i64,
    A: Fn(u64) -> i64,
    E: Fn(i64) -> u64,
>(below: B, above: A, edge: E, lines: spec_fn(int) -> int, a: u64, b: u64)
    requires
        crate::grid::is_grid(lines),
        ({
            let low = if a <= b {
                a
            } else {
                b
            };
            let high = if a <= b {
                b
            } else {
                a
            };
            let first = crate::ask::answer(below, low);
            let last = crate::ask::answer(above, high);
            &&& lines(first as int) <= low < lines(first + 1)
            &&& lines(last - 1) < high <= lines(last as int)
            &&& first < i64::MAX
            &&& crate::ask::answer(edge, first) == lines(first as int)
            &&& last > first ==> crate::ask::answer(edge, last) == lines(last as int)
            &&& last <= first ==> crate::ask::answer(edge, (first + 1) as i64) == lines(first + 1)
        }),
    ensures
        ({
            let low = if a <= b {
                a
            } else {
                b
            };
            let high = if a <= b {
                b
            } else {
                a
            };
            let selection = crate::grid::snapped(below, above, edge, a, b);
            &&& selection.start <= low && high <= selection.end
            &&& selection.start < selection.end
            &&& exists|c: int| #[trigger] lines(c) == selection.start
            &&& exists|c: int| #[trigger] lines(c) == selection.end
            &&& forall|c: int| #[trigger] lines(c) <= low ==> lines(c) <= selection.start
            &&& forall|c: int|
                high <= #[trigger] lines(c) && selection.start < lines(c) ==> selection.end
                    <= lines(c)
        }),
{
    let low = if a <= b {
        a
    } else {
        b
    };
    let high = if a <= b {
        b
    } else {
        a
    };
    let (first, last) = crate::grid::law_a_drag_goes_from_line_to_line(
        below,
        above,
        edge,
        lines,
        a,
        b,
    );
    assert(low == crate::grid::earlier(a, b) && high == crate::grid::later(a, b));
}

/// A range that is taken up to a limit is the whole cells of it that are finished there: from the
/// last line at or before its earlier end to the last one at or before its later end and the limit.
/// There is none exactly where no line lies behind the one and up to the other.
pub proof fn law_a_range_up_to_a_limit_is_whole_cells<B: Fn(u64) -> i64, E: Fn(i64) -> u64>(
    below: B,
    edge: E,
    lines: spec_fn(int) -> int,
    a: u64,
    b: u64,
    limit: u64,
)
    requires
        crate::grid::is_grid(lines),
        ({
            let low = if a <= b {
                a
            } else {
                b
            };
            let high = if a <= b {
                b
            } else {
                a
            };
            let stop = if high <= limit {
                high
            } else {
                limit
            };
            let first = crate::ask::answer(below, low) as int;
            let last = crate::ask::answer(below, stop) as int;
            &&& lines(first) <= low < lines(first + 1)
            &&& lines(last) <= stop < lines(last + 1)
            &&& crate::ask::answer(edge, first as i64) == lines(first)
            &&& crate::ask::answer(edge, last as i64) == lines(last)
        }),
    ensures
        ({
            let low = if a <= b {
                a
            } else {
                b
            };
            let high = if a <= b {
                b
            } else {
                a
            };
            let stop = if high <= limit {
                high
            } else {
                limit
            };
            match crate::grid::snapped_upto(below, edge, a, b, limit) {
                Some(selection) => {
                    &&& selection.start < selection.end <= limit
                    &&& selection.start <= low
                    &&& selection.end <= stop
                    &&& forall|c: int|
                        #[trigger] lines(c) <= low ==> lines(c) <= selection.start
                    &&& forall|c: int| #[trigger] lines(c) <= stop ==> lines(c) <= selection.end
                    &&& exists|c: int| #[trigger] lines(c) == selection.start
                    &&& exists|c: int| #[trigger] lines(c) == selection.end
                },
                None => forall|c: int| !(low < #[trigger] lines(c) <= stop),
            }
        }),
{
    let low = if a <= b {
        a
    } else {
        b
    };
    let high = if a <= b {
        b
    } else {
        a
    };
    let stop = if high <= limit {
        high
    } else {
        limit
    };
    let first = crate::ask::answer(below, low) as int;
    let last = crate::ask::answer(below, stop) as int;
    assert forall|c: int| #[trigger] lines(c) <= low implies lines(c) <= lines(first) by {
        if c > first + 1 {
            assert(lines(first + 1) < lines(c));
        }
        if c < first {
            assert(lines(c) < lines(first));
        }
    }
    assert forall|c: int| #[trigger] lines(c) <= stop implies lines(c) <= lines(last) by {
        if c > last + 1 {
            assert(lines(last + 1) < lines(c));
        }
        if c < last {
            assert(lines(c) < lines(last));
        }
    }
    if last <= first {
        assert forall|c: int| !(low < #[trigger] lines(c) <= stop) by {
            if low < lines(c) <= stop {
                assert(lines(c) <= lines(last));
                if last < first {
                    assert(lines(last) < lines(first));
                }
            }
        }
    } else {
        assert(lines(first) < lines(last));
        assert(crate::grid::snapped_upto(below, edge, a, b, limit) == Some(
            Selection { start: lines(first) as u64, end: lines(last) as u64 },
        ));
    }
}

/// The number row selects as many cells as its tenths come to, at least one, up to the last finished
/// one; fewer only where the window holds no more, and none where it holds none.
pub proof fn law_the_number_row_selects_what_was_asked_for(complete: i64, wanted: i64, oldest: i64)
    ensures
        ({
            let count = if wanted >= 1 {
                wanted as int
            } else {
                1
            };
            match crate::grid::recent(complete, wanted, oldest) {
                Some((first, last)) => {
                    &&& last == complete
                    &&& oldest <= first < last
                    &&& complete - oldest >= count ==> last - first == count
                    &&& complete - oldest < count ==> first == oldest
                },
                None => complete <= oldest,
            }
        }),
{
}

/// A key of the number row asks for its own number of tenths; below one it is one, and above ten it
/// is ten.
pub proof fn law_a_key_asks_for_its_tenths(key: u32)
    ensures
        key == 0 ==> crate::grid::tenths_of(key) == 1,
        1 <= key <= 10 ==> crate::grid::tenths_of(key) == key,
        key > 10 ==> crate::grid::tenths_of(key) == 10,
{
}

/// Each rung of the ladder is twice the one below it, from a thirty-second of a bar to four bars.
pub proof fn law_each_rung_is_twice_the_one_below(rung: nat)
    ensures
        crate::grid::rung32_of(0) == 1,
        crate::grid::rung32_of(rung + 1) == 2 * crate::grid::rung32_of(rung),
        crate::grid::RUNGS == 8,
        crate::grid::rung32_of(7) == 128,
{
    lemma2_to64();
    lemma_pow2_unfold(rung + 1);
}

/// The rung that is chosen is the closest one that is closer than the farthest, and the finest of
/// those as close. Where none is closer than that it is the finest of all.
pub proof fn law_the_finest_of_the_closest_rungs_is_chosen<N>(
    errors: Seq<N>,
    farthest: N,
    less: spec_fn(N, N) -> bool,
)
    requires
        forall|a: N| !#[trigger] less(a, a),
        forall|a: N, b: N, c: N| #[trigger] less(a, b) && #[trigger] less(b, c) ==> less(a, c),
        forall|a: N, b: N, c: N| !#[trigger] less(a, b) && !#[trigger] less(b, c) ==> !less(a, c),
    ensures
        ({
            let (best, error) = crate::grid::closest_of(errors, farthest, less);
            ||| {
                &&& best == 0 && error == farthest
                &&& forall|i: int|
                    0 <= i < errors.len() ==> !less(#[trigger] errors[i], farthest)
            }
            ||| {
                &&& 0 <= best < errors.len() && error == errors[best]
                &&& less(errors[best], farthest)
                &&& forall|i: int|
                    0 <= i < errors.len() ==> !less(#[trigger] errors[i], errors[best])
                &&& forall|i: int| 0 <= i < best ==> less(errors[best], #[trigger] errors[i])
            }
        }),
    decreases errors.len(),
{
    if errors.len() > 0 {
        let before = errors.drop_last();
        law_the_finest_of_the_closest_rungs_is_chosen(before, farthest, less);
        let (best, error) = crate::grid::closest_of(before, farthest, less);
        let last = errors.last();
        assert forall|i: int| 0 <= i < before.len() implies #[trigger] errors[i] == before[i]
            && !less(errors[i], error) by {
            assert(before[i] == errors[i]);
        }
        if less(last, error) {
            assert forall|i: int| 0 <= i < before.len() implies less(last, #[trigger] errors[i])
                && !less(errors[i], last) by {
                assert(!less(errors[i], error));
            }
        }
    }
}

/// A step on the ladder moves by as many rungs; auto lies below the finest, and both ends hold.
pub proof fn law_a_step_moves_by_as_many_rungs(rung: usize, step: i32)
    requires
        rung < 8,
    ensures
        ({
            let from = crate::grid::setting_at(crate::grid::position_of(Some(rung)) + step);
            let auto = crate::grid::setting_at(crate::grid::position_of(None) + step);
            &&& 0 <= rung + step < 8 ==> from == Some((rung + step) as usize)
            &&& rung + step < 0 ==> from is None
            &&& rung + step >= 8 ==> from == Some(7usize)
            &&& step <= 0 ==> auto is None
            &&& 1 <= step <= 8 ==> auto == Some((step - 1) as usize)
            &&& step > 8 ==> auto == Some(7usize)
        }),
{
}

/// The lines that are drawn are the visible ones, where they are and in order, each for the most
/// that it stands for: a lap boundary, or else a bar line, or else a cell.
pub proof fn law_the_visible_lines_are_drawn<N>(lines: Seq<Line<N>>)
    ensures
        crate::grid::ruled(lines) == lines.filter(|line: Line<N>| line.visible).map_values(
            |line: Line<N>|
                Ruling {
                    fraction: line.fraction,
                    rule: if line.on_lap {
                        Rule::Lap
                    } else if line.on_bar {
                        Rule::Bar
                    } else {
                        Rule::Cell
                    },
                },
        ),
    decreases lines.len(),
{
    reveal(Seq::filter);
    let visible = |line: Line<N>| line.visible;
    let read = |line: Line<N>|
        Ruling {
            fraction: line.fraction,
            rule: if line.on_lap {
                Rule::Lap
            } else if line.on_bar {
                Rule::Bar
            } else {
                Rule::Cell
            },
        };
    if lines.len() > 0 {
        law_the_visible_lines_are_drawn(lines.drop_last());
    }
    assert(crate::grid::ruled(lines) =~= lines.filter(visible).map_values(read));
}

/// A setting is kept where it can be, and otherwise becomes the nearest that can.
pub proof fn law_a_setting_becomes_the_nearest_possible(x: u32, low: u32, high: u32)
    requires
        low <= high,
    ensures
        low <= crate::session::clamped(x, low, high) <= high,
        low <= x <= high ==> crate::session::clamped(x, low, high) == x,
        x < low ==> crate::session::clamped(x, low, high) == low,
        x > high ==> crate::session::clamped(x, low, high) == high,
{
}

/// A selection is empty where there is none, pending where it reaches past what was captured, and
/// otherwise ready as long as no part of it was written over.
pub proof fn law_a_selection_is_ready_while_it_is_there(
    start: u64,
    end: u64,
    head: u64,
    capacity: int,
)
    requires
        start <= end,
        capacity >= 0,
    ensures
        ({
            let state = crate::session::state_of(Some(Selection { start, end }), head, capacity);
            &&& end > head ==> state == SelectionState::Pending
            &&& end <= head && head - start <= capacity ==> state == SelectionState::Ready
            &&& end <= head && head - start > capacity ==> state == SelectionState::Overwritten
            &&& crate::session::state_of(None, head, capacity) == SelectionState::Empty
        }),
{
}

/// A selection that ends before it starts is never ready: it is pending where its end lies past what
/// was captured, and otherwise there is nothing of it to have.
pub proof fn law_an_inverted_selection_is_never_ready(
    start: u64,
    end: u64,
    head: u64,
    capacity: int,
)
    requires
        end < start,
    ensures
        crate::session::state_of(Some(Selection { start, end }), head, capacity) == if end > head {
            SelectionState::Pending
        } else {
            SelectionState::Overwritten
        },
{
}

/// Erosion gives up exactly what lies before the edge: the end stays, the start moves up to the edge
/// where it lay before it, and nothing is left where all of it did.
pub proof fn law_erosion_gives_up_what_lies_before_the_edge(start: u64, end: u64, first: u64)
    ensures
        ({
            let left = crate::session::eroded(Some(Selection { start, end }), first);
            &&& first <= start ==> left == Some(Selection { start, end })
            &&& start < first < end ==> left == Some(Selection { start: first, end })
            &&& start < first && end <= first ==> left is None
            &&& crate::session::eroded(None, first) is None
        }),
{
}

/// Eroding in two steps is eroding by the later edge.
pub proof fn law_erosion_adds_up(selection: Option<Selection>, first: u64, second: u64)
    requires
        first <= second,
    ensures
        crate::session::eroded(crate::session::eroded(selection, first), second)
            == crate::session::eroded(selection, second),
{
}

/// The markers that stay are those whose audio is still there, in order.
pub proof fn law_markers_stay_while_their_audio_does(markers: Seq<u64>, oldest: u64)
    ensures
        crate::session::still_there(markers, oldest) == markers.filter(|m: u64| m >= oldest),
    decreases markers.len(),
{
    reveal(Seq::filter);
    let stays = |m: u64| m >= oldest;
    if markers.len() > 0 {
        law_markers_stay_while_their_audio_does(markers.drop_last(), oldest);
    }
    assert(crate::session::still_there(markers, oldest) =~= markers.filter(stays));
}

/// An event is stamped by its offset in its block, on the last frame of the block where it lies
/// beyond, and not at all where the block took nothing.
pub proof fn law_an_event_is_stamped_by_its_offset(block_start: u64, captured: u64, offset: u32)
    ensures
        captured <= block_start ==> crate::session::stamp_of(block_start, captured, offset) is None,
        block_start < captured && offset < captured - block_start ==> crate::session::stamp_of(
            block_start,
            captured,
            offset,
        ) == Some((block_start + offset) as u64),
        block_start < captured && offset >= captured - block_start ==> crate::session::stamp_of(
            block_start,
            captured,
            offset,
        ) == Some((captured - 1) as u64),
{
}

/// Taking an interleaved block apart loses nothing: each of its samples is in the plane of its
/// channel, at its frame.
pub proof fn law_planes_put_together_are_the_block(
    interleaved: Seq<u32>,
    channels: int,
    frames: nat,
    channel: int,
    frame: int,
)
    requires
        0 <= channel < channels,
        0 <= frame < frames,
    ensures
        crate::session::channel_of(interleaved, channels, channel, frames).len() == frames,
        crate::session::channel_of(interleaved, channels, channel, frames)[frame]
            == interleaved[frame * channels + channel],
{
}

} // verus!
