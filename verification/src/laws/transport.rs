//! Following the transport.
use crate::clock::{Advance, Captured, ClockMessage, Estimate, Readings, Transport};
use vstd::prelude::*;

verus! {

/// A rolling block is taken whole. It costs ring only where it begins somewhere else than the one
/// before it ended, in the middle of a take, and out of phase with the bars: then exactly as much as
/// brings it into phase. Where nothing was captured yet the bars move instead.
pub proof fn law_a_rolling_block_is_taken_whole<N>(
    clock: Captured<N>,
    transport: Transport<N>,
    frames: usize,
    readings: Readings<N>,
)
    requires
        transport.playing,
        !transport.offline,
        frames > 0,
    ensures
        ({
            let (after, advance) = crate::clock::advanced(clock, transport, frames, readings);
            let fresh = !clock.capturing || (transport.position is Some && clock.expected is Some
                && readings.jumped);
            &&& advance.frames == frames
            &&& !fresh ==> advance.seam == 0 && after.bar_phase == clock.bar_phase
            &&& clock.captured == 0 ==> advance.seam == 0
            &&& fresh && clock.captured == 0 ==> after.bar_phase == readings.bar_phase
            &&& clock.captured > 0 ==> after.bar_phase == clock.bar_phase
            &&& readings.nearly_there || readings.just_past ==> advance.seam == 0
            &&& fresh && clock.captured > 0 && !readings.nearly_there && !readings.just_past
                ==> advance.seam == readings.shift
            &&& after.captured == clock.captured + advance.seam + frames
            &&& after.seam_frames == clock.seam_frames + advance.seam
            &&& after.playing && after.capturing
            &&& after.expected == readings.onward
            &&& after.offline_blocks == clock.offline_blocks
            &&& after.sample_rate == clock.sample_rate
        }),
{
}

/// A block that is rendered offline, or that does not roll, is refused: nothing is taken, nothing
/// that was captured changes, and the next block that is taken begins afresh. An offline one is
/// counted.
pub proof fn law_a_block_that_does_not_roll_is_refused<N>(
    clock: Captured<N>,
    transport: Transport<N>,
    frames: usize,
    readings: Readings<N>,
)
    requires
        transport.offline || !transport.playing,
    ensures
        ({
            let (after, advance) = crate::clock::advanced(clock, transport, frames, readings);
            &&& advance.frames == 0 && advance.seam == 0
            &&& after.captured == clock.captured
            &&& after.seam_frames == clock.seam_frames
            &&& after.segments == clock.segments
            &&& after.bar_phase == clock.bar_phase
            &&& after.expected == clock.expected
            &&& after.sample_rate == clock.sample_rate
            &&& after.playing == transport.playing
            &&& !after.capturing
            &&& after.offline_blocks == clock.offline_blocks + if transport.offline {
                1int
            } else {
                0
            }
        }),
{
}

/// A rolling block with nothing in it says that the transport rolls, and nothing else.
pub proof fn law_a_block_with_nothing_in_it_is_nothing<N>(
    clock: Captured<N>,
    transport: Transport<N>,
    readings: Readings<N>,
)
    requires
        transport.playing,
        !transport.offline,
    ensures
        ({
            let (after, advance) = crate::clock::advanced(clock, transport, 0, readings);
            &&& advance.frames == 0 && advance.seam == 0
            &&& after.playing
            &&& after.capturing == clock.capturing
            &&& after.captured == clock.captured
            &&& after.seam_frames == clock.seam_frames
            &&& after.segments == clock.segments
            &&& after.bar_phase == clock.bar_phase
            &&& after.expected == clock.expected
            &&& after.offline_blocks == clock.offline_blocks
            &&& after.sample_rate == clock.sample_rate
        }),
{
}

/// Events go where the audio of their block goes: behind the dead frames of a block that is taken,
/// at the write head of one that is refused, and where they went before after one with nothing in
/// it.
pub proof fn law_events_go_where_their_audio_goes<N>(
    clock: Captured<N>,
    transport: Transport<N>,
    frames: usize,
    readings: Readings<N>,
    block_start: u64,
)
    requires
        crate::clock::counted(crate::take::begun(clock, transport, frames, readings).0),
    ensures
        ({
            let (after, advance) = crate::take::begun(clock, transport, frames, readings);
            let start = crate::take::begun_at(block_start, clock, transport, frames, readings);
            let rolls = transport.playing && !transport.offline;
            &&& frames == 0 ==> start == block_start && after == clock && advance == (Advance {
                seam: 0,
                frames: 0,
            })
            &&& frames > 0 && rolls ==> {
                &&& start == clock.captured + advance.seam
                &&& start + frames == after.captured
                &&& advance.frames == frames
            }
            &&& frames > 0 && !rolls ==> {
                &&& start == clock.captured
                &&& after.captured == clock.captured
                &&& advance.frames == 0 && advance.seam == 0
            }
        }),
{
}

/// A packet of a clock is told by its first byte; a song position takes two more, seven bits each,
/// low ones first.
pub proof fn law_a_packet_is_told_by_its_first_byte(data: Seq<u8>)
    ensures
        data.len() == 0 ==> crate::clock::decoded(data) is None,
        data.len() > 0 ==> {
            &&& data[0] == 0xF8 ==> crate::clock::decoded(data) == Some(ClockMessage::Tick)
            &&& data[0] == 0xFA ==> crate::clock::decoded(data) == Some(ClockMessage::Start)
            &&& data[0] == 0xFB ==> crate::clock::decoded(data) == Some(ClockMessage::Continue)
            &&& data[0] == 0xFC ==> crate::clock::decoded(data) == Some(ClockMessage::Stop)
            &&& data[0] == 0xF2 && data.len() < 3 ==> crate::clock::decoded(data) is None
            &&& data[0] == 0xF2 && data.len() >= 3 ==> crate::clock::decoded(data) == Some(
                ClockMessage::SongPosition((data[1] as u16) | ((data[2] as u16) << 7)),
            )
            &&& data[0] != 0xF2 && data[0] != 0xF8 && data[0] != 0xFA && data[0] != 0xFB && data[0]
                != 0xFC ==> crate::clock::decoded(data) is None
        },
{
    if data.len() >= 3 {
        crate::laws::bytes::law_halves_are_joined(data[1], data[2]);
    }
}

/// A start rolls from the top, a continue rolls on from where it stands, a stop stands still, and a
/// song position moves it without rolling. None of them is a tick: the window keeps its points.
pub proof fn law_messages_move_the_position<N>(
    state: Estimate<N>,
    sample_rate: u32,
    at: u64,
    nearest: u64,
    close: bool,
    sixteenths: u16,
)
    ensures
        ({
            let start = crate::clock::fed(
                state,
                sample_rate,
                ClockMessage::Start,
                at,
                nearest,
                close,
            );
            let resume = crate::clock::fed(
                state,
                sample_rate,
                ClockMessage::Continue,
                at,
                nearest,
                close,
            );
            let stop = crate::clock::fed(
                state,
                sample_rate,
                ClockMessage::Stop,
                at,
                nearest,
                close,
            );
            let moved = crate::clock::fed(
                state,
                sample_rate,
                ClockMessage::SongPosition(sixteenths),
                at,
                nearest,
                close,
            );
            &&& start.playing && start.ticks == 0 && start.last_tick is None
            &&& resume.playing && resume.ticks == state.ticks && resume.last_tick is None
            &&& !stop.playing && stop.ticks == state.ticks && stop.last_tick is None
            &&& moved.playing == state.playing && moved.ticks == 6 * sixteenths
            &&& moved.last_tick == state.last_tick
            &&& forall|after: Estimate<N>|
                after == start || after == resume || after == stop || after == moved ==> {
                    &&& (#[trigger] after.window) == state.window
                    &&& after.index == state.index
                    &&& after.bpm == state.bpm
                    &&& after.rejected == state.rejected
                }
        }),
{
}

/// What a tick does whatever came before it: it is the newest point, the window holds no more than
/// 24 of them, the position moves by one where the transport rolls, and the tempo is left to the
/// fit.
pub proof fn law_a_tick_is_the_newest_point<N>(
    state: Estimate<N>,
    sample_rate: u32,
    at: u64,
    nearest: u64,
    close: bool,
)
    requires
        state.window.len() <= 24,
        state.index + 8 <= u64::MAX,
    ensures
        ({
            let after = crate::clock::fed(
                state,
                sample_rate,
                ClockMessage::Tick,
                at,
                nearest,
                close,
            );
            &&& 1 <= after.window.len() <= 24
            &&& after.window.last() == (after.index as u64, at)
            &&& after.last_tick == Some(at)
            &&& after.playing == state.playing
            &&& after.bpm == state.bpm
            &&& after.ticks == state.ticks + if state.playing {
                1int
            } else {
                0
            }
        }),
{
}

/// Two ticks as far apart as a tempo from 20 to 999 has them belong together: the window keeps its
/// points, the oldest of them only where it is full, and the tick counts one, or as many as the
/// interval is close to where the window is settled, from two to eight.
pub proof fn law_a_plausible_tick_continues_the_window<N>(
    state: Estimate<N>,
    sample_rate: u32,
    previous: u64,
    at: u64,
    nearest: u64,
    close: bool,
)
    requires
        state.last_tick == Some(previous),
        previous <= at,
        state.window.len() <= 24,
        state.index + 8 <= u64::MAX,
        // Samples in a minute, against 24 ticks to each of 20 and of 999 quarter notes.
        480 * (at - previous) <= 60 * sample_rate <= 23976 * (at - previous),
    ensures
        ({
            let after = crate::clock::fed(
                state,
                sample_rate,
                ClockMessage::Tick,
                at,
                nearest,
                close,
            );
            &&& after.rejected == state.rejected
            &&& state.window.len() < 24 ==> after.window == state.window.push(
                (after.index as u64, at),
            )
            &&& state.window.len() == 24 ==> after.window == state.window.push(
                (after.index as u64, at),
            ).drop_first()
            &&& state.window.len() >= 3 && close && 2 <= nearest <= 8 ==> after.index
                == state.index + nearest
            &&& state.window.len() < 3 || !close || nearest < 2 || nearest > 8 ==> after.index
                == state.index + 1
        }),
{
    lemma_plausible(at - previous, sample_rate);
}

proof fn lemma_plausible(interval: int, sample_rate: u32)
    ensures
        crate::clock::plausible(interval, sample_rate) == (480 * interval <= 60 * sample_rate
            <= 23976 * interval),
{
    assert(interval * 999 * 24 == 23976 * interval) by (nonlinear_arith);
    assert(interval * 20 * 24 == 480 * interval) by (nonlinear_arith);
}

/// Two ticks that no tempo from 20 to 999 has so far apart are a gap: it is counted, and the window
/// begins again with the newer one.
pub proof fn law_an_implausible_tick_begins_a_new_window<N>(
    state: Estimate<N>,
    sample_rate: u32,
    previous: u64,
    at: u64,
    nearest: u64,
    close: bool,
)
    requires
        state.last_tick == Some(previous),
        ({
            let interval = if at >= previous {
                at - previous
            } else {
                0
            };
            480 * interval > 60 * sample_rate || 60 * sample_rate > 23976 * interval
        }),
    ensures
        ({
            let after = crate::clock::fed(
                state,
                sample_rate,
                ClockMessage::Tick,
                at,
                nearest,
                close,
            );
            &&& after.rejected == state.rejected + 1
            &&& after.window == seq![(1u64, at)]
            &&& after.index == 1
        }),
{
    let interval = if at >= previous {
        at - previous
    } else {
        0
    };
    lemma_plausible(interval, sample_rate);
    let after = crate::clock::fed(state, sample_rate, ClockMessage::Tick, at, nearest, close);
    assert(after.window =~= seq![(1u64, at)]);
}

/// The first tick after a start, a continue or a stop is measured against nothing: it is no gap, and
/// counts one.
pub proof fn law_a_first_tick_is_no_gap<N>(
    state: Estimate<N>,
    sample_rate: u32,
    at: u64,
    nearest: u64,
    close: bool,
)
    requires
        state.last_tick is None,
        state.window.len() <= 24,
    ensures
        ({
            let after = crate::clock::fed(
                state,
                sample_rate,
                ClockMessage::Tick,
                at,
                nearest,
                close,
            );
            &&& after.rejected == state.rejected
            &&& after.index == state.index + 1
            &&& state.window.len() < 24 ==> after.window == state.window.push(
                ((state.index + 1) as u64, at),
            )
            &&& state.window.len() == 24 ==> after.window == state.window.push(
                ((state.index + 1) as u64, at),
            ).drop_first()
        }),
{
}

} // verus!
