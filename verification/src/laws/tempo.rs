//! Tempo over time.
use crate::clock::{Captured, Readings, Transport};
use crate::tempo::Segment;
use vstd::prelude::*;

verus! {

/// The segment in force at a frame is the last one that began at or before it.
pub proof fn law_one_segment_is_in_force<N>(segments: Seq<Segment<N>>, frame: u64, k: int)
    requires
        crate::tempo::ordered(segments),
        0 <= k < segments.len(),
        segments[k].frame <= frame,
        k + 1 < segments.len() ==> frame < segments[k + 1].frame,
    ensures
        crate::tempo::in_force_at(segments, frame) == k,
    decreases segments.len(),
{
    if k + 1 < segments.len() {
        if k + 1 < segments.len() - 1 {
            assert(segments[k + 1].frame < segments.last().frame);
        }
        law_one_segment_is_in_force(segments.drop_last(), frame, k);
    }
}

/// Some segment is in force at every frame.
pub proof fn law_some_segment_is_in_force<N>(segments: Seq<Segment<N>>, frame: u64) -> (k: int)
    requires
        crate::tempo::ordered(segments),
    ensures
        0 <= k < segments.len(),
        segments[k].frame <= frame,
        k + 1 < segments.len() ==> frame < segments[k + 1].frame,
        crate::tempo::in_force_at(segments, frame) == k,
    decreases segments.len(),
{
    if segments.last().frame <= frame {
        segments.len() - 1
    } else {
        let shorter = segments.drop_last();
        assert(shorter[0] == segments[0]);
        let k = law_some_segment_is_in_force(shorter, frame);
        if k + 1 == shorter.len() {
            assert(segments[k + 1] == segments.last());
        } else {
            assert(segments[k + 1] == shorter[k + 1]);
        }
        k
    }
}

/// A change strictly inside a range is listed, with its frame, its tempo and its meter.
pub proof fn law_a_change_inside_is_listed<N>(
    segments: Seq<Segment<N>>,
    start: u64,
    end: u64,
    k: int,
) -> (n: int)
    requires
        0 <= k < segments.len(),
        start < segments[k].frame < end,
    ensures
        0 <= n < crate::tempo::changes_between(segments, start, end).len(),
        crate::tempo::changes_between(segments, start, end)[n] == (
            segments[k].frame,
            segments[k].bpm,
            segments[k].meter,
        ),
    decreases segments.len(),
{
    if k < segments.len() - 1 {
        law_a_change_inside_is_listed(segments.drop_last(), start, end, k)
    } else {
        crate::tempo::changes_between(segments.drop_last(), start, end).len() as int
    }
}

/// Only the changes strictly inside a range are listed, in order.
pub proof fn law_only_changes_inside_are_listed<N>(segments: Seq<Segment<N>>, start: u64, end: u64)
    ensures
        crate::tempo::changes_between(segments, start, end) == segments.filter(
            |s: Segment<N>| start < s.frame < end,
        ).map_values(|s: Segment<N>| (s.frame, s.bpm, s.meter)),
    decreases segments.len(),
{
    reveal(Seq::filter);
    let inside = |s: Segment<N>| start < s.frame < end;
    let read = |s: Segment<N>| (s.frame, s.bpm, s.meter);
    if segments.len() > 0 {
        law_only_changes_inside_are_listed(segments.drop_last(), start, end);
        assert(crate::tempo::changes_between(segments, start, end) =~= segments.filter(
            inside,
        ).map_values(read));
    } else {
        assert(crate::tempo::changes_between(segments, start, end) =~= segments.filter(
            inside,
        ).map_values(read));
    }
}

/// What is recorded of a change: nothing where it is none; its tempo and meter on the newest
/// segment where that begins on the same frame, with the music that had passed there; and otherwise
/// a segment of its own behind all the others.
pub proof fn law_a_change_is_recorded_at_its_frame<N>(
    segments: Seq<Segment<N>>,
    next: Segment<N>,
    same_bpm: bool,
)
    requires
        segments.len() > 0,
    ensures
        ({
            let after = crate::tempo::changed(segments, next, same_bpm);
            let last = segments.last();
            let changes = !same_bpm || next.meter != last.meter;
            &&& !changes ==> after == segments
            &&& changes && next.frame == last.frame ==> {
                &&& after.len() == segments.len()
                &&& after.last().frame == next.frame
                &&& after.last().bpm == next.bpm && after.last().meter == next.meter
                &&& after.last().quarters == last.quarters && after.last().bars == last.bars
                &&& forall|i: int|
                    0 <= i < segments.len() - 1 ==> #[trigger] after[i] == segments[i]
            }
            &&& changes && next.frame != last.frame ==> {
                &&& after.len() == segments.len() + 1
                &&& after.last() == next
                &&& forall|i: int| 0 <= i < segments.len() ==> #[trigger] after[i] == segments[i]
            }
        }),
{
}

/// Every captured block records the tempo and the meter that it was played at, whether it rolls on
/// or begins somewhere else: from the frame where it was taken on, the meter in force is the
/// reported one, and so is the tempo where that had changed.
pub proof fn law_every_captured_block_records_its_tempo<N>(
    clock: Captured<N>,
    transport: Transport<N>,
    frames: usize,
    readings: Readings<N>,
    k: int,
)
    requires
        transport.playing,
        !transport.offline,
        frames > 0,
        crate::tempo::ordered(clock.segments),
        clock.segments.last().frame <= clock.captured <= u64::MAX,
        ({
            let after = crate::clock::advanced(clock, transport, frames, readings).0.segments;
            &&& 0 <= k < after.len()
            &&& after[k].frame <= clock.captured
            &&& k + 1 < after.len() ==> clock.captured < after[k + 1].frame
        }),
    ensures
        ({
            let after = crate::clock::advanced(clock, transport, frames, readings).0.segments;
            let last = clock.segments.last();
            &&& after[k].meter == transport.meter
            &&& !readings.same_bpm || transport.meter != last.meter ==> {
                &&& after[k].bpm == transport.bpm
                &&& after[k].frame == clock.captured
                &&& clock.captured > last.frame ==> after[k].quarters == readings.quarters
                    && after[k].bars == readings.bars
                &&& clock.captured == last.frame ==> after[k].quarters == last.quarters
                    && after[k].bars == last.bars
            }
            &&& readings.same_bpm && transport.meter == last.meter ==> after == clock.segments
            &&& k == after.len() - 1
        }),
{
    let after = crate::clock::advanced(clock, transport, frames, readings).0.segments;
    let next = Segment {
        frame: clock.captured as u64,
        bpm: transport.bpm,
        meter: transport.meter,
        quarters: readings.quarters,
        bars: readings.bars,
    };
    law_a_change_is_recorded_at_its_frame(clock.segments, next, readings.same_bpm);
    if k < after.len() - 1 {
        if k + 1 < clock.segments.len() - 1 {
            assert(clock.segments[k + 1].frame < clock.segments.last().frame);
        }
        assert(after.last().frame <= clock.captured);
        if after.len() == clock.segments.len() {
            if k + 1 < after.len() - 1 {
                assert(after[k + 1] == clock.segments[k + 1]);
            }
        } else {
            assert(after[k + 1].frame <= clock.captured);
        }
    }
}

/// A refused block records nothing.
pub proof fn law_a_refused_block_records_nothing<N>(
    clock: Captured<N>,
    transport: Transport<N>,
    frames: usize,
    readings: Readings<N>,
)
    requires
        transport.offline || !transport.playing || frames == 0,
    ensures
        crate::clock::advanced(clock, transport, frames, readings).0.segments == clock.segments,
{
}

} // verus!
