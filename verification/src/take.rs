//! One block of a take: what the clock lets through, where it lies, and where its events lie.
use crate::clock::{Advance, CaptureClock, Captured, Readings, Transport};
use crate::grid::Selection;
use crate::midi::{Event, MidiRing};
use crate::ring::{Producer, Reader};
use crate::session::Session;
use vstd::prelude::*;

verus! {

/// The clock and the ring count the same frames: what was captured is what was written.
pub open spec fn in_step<N>(clock: Captured<N>, ring: &Producer) -> bool {
    clock.captured == ring.spec_written()
}

/// What a block does to a capture clock. One with nothing in it never reaches the clock.
pub open spec fn begun<N>(
    clock: Captured<N>,
    transport: Transport<N>,
    frames: usize,
    readings: Readings<N>,
) -> (Captured<N>, Advance) {
    if frames == 0 {
        (clock, Advance { seam: 0, frames: 0 })
    } else {
        crate::clock::advanced(clock, transport, frames, readings)
    }
}

/// Where the block that events belong to begins, once a block was begun: the part of it that is
/// captured, behind the dead frames. One with nothing in it leaves the block before it in place.
pub open spec fn begun_at<N>(
    block_start: u64,
    clock: Captured<N>,
    transport: Transport<N>,
    frames: usize,
    readings: Readings<N>,
) -> u64 {
    let (state, advance) = begun(clock, transport, frames, readings);
    if frames == 0 {
        block_start
    } else {
        (state.captured - advance.frames) as u64
    }
}

/// Asks the clock about a block, and notes where the part of it that is captured begins: behind the
/// dead frames, so that its events lie on the same axis as its audio. A refused block begins at the
/// write head, and has no room for events. A block with nothing in it is nothing at all.
pub fn begin<N: Copy>(
    clock: &mut CaptureClock<N>,
    session: &mut Session,
    transport: &Transport<N>,
    frames: usize,
    readings: &Readings<N>,
) -> (advance: Advance)
    requires
        old(clock).wf(),
        crate::clock::counted(begun(old(clock)@, *transport, frames, *readings).0),
    ensures
        final(clock).wf(),
        (final(clock)@, advance) == begun(old(clock)@, *transport, frames, *readings),
        final(session)@ == (crate::session::SessionView {
            block_start: begun_at(
                old(session)@.block_start,
                old(clock)@,
                *transport,
                frames,
                *readings,
            ),
            ..old(session)@
        }),
{
    if frames == 0 {
        return Advance { seam: 0, frames: 0 };
    }
    let advance = clock.advance(transport, frames, readings);
    session.begin_block(clock.captured() - advance.frames as u64);
    advance
}

/// Captures one block: the dead frames of a splice, then the block, or nothing at all. Returns how
/// many of its frames were taken.
pub fn capture<N: Copy>(
    ring: &mut Producer,
    clock: &mut CaptureClock<N>,
    session: &mut Session,
    transport: &Transport<N>,
    sources: &[&[u32]],
    frames: usize,
    readings: &Readings<N>,
) -> (taken: usize)
    requires
        old(ring).wf(),
        old(clock).wf(),
        in_step(old(clock)@, old(ring)),
        sources@.len() > 0,
        forall|p: int| 0 <= p < sources@.len() ==> (#[trigger] sources@[p])@.len() >= frames,
        frames <= old(ring).spec_shape().capacity,
        crate::clock::counted(begun(old(clock)@, *transport, frames, *readings).0),
    ensures
        final(clock).wf(),
        in_step(final(clock)@, final(ring)),
        ({
            let (state, advance) = begun(old(clock)@, *transport, frames, *readings);
            &&& final(clock)@ == state
            &&& taken == advance.frames
            &&& crate::ring::recorded(
                old(ring),
                final(ring),
                crate::ring::planes(sources@),
                advance.seam as int,
                advance.frames as int,
            )
            &&& final(session)@ == (crate::session::SessionView {
                block_start: begun_at(
                    old(session)@.block_start,
                    old(clock)@,
                    *transport,
                    frames,
                    *readings,
                ),
                ..old(session)@
            })
        }),
{
    let advance = begin(clock, session, transport, frames, readings);
    ring.record(sources, advance.seam, advance.frames);
    advance.frames
}

/// The selection to export and its audio, one plane per channel, or `None` where export is refused:
/// nothing selected, an empty selection, or a range that the ring does not hold in full.
pub fn selected_planes(ring: &Producer, reader: &Reader, session: &Session) -> (selected: Option<
    (Selection, Vec<Vec<u32>>),
>)
    requires
        reader.reads(ring),
    ensures
        match session@.selection {
            Some(selection) if selection.start < selection.end && ring.spec_holds(
                selection.start as int,
                selection.end as int,
            ) => selected matches Some((chosen, planes)) && {
                &&& chosen == selection
                &&& planes@.len() == ring.spec_shape().channels
                &&& forall|c: int|
                    0 <= c < planes@.len() ==> (#[trigger] planes@[c])@ == ring.span(
                        c,
                        selection.start as int,
                        (selection.end - selection.start) as nat,
                    )
            },
            _ => selected is None,
        },
{
    let shape = reader.shape();
    let selection = match session.to_stage(&shape, reader.head(ring)) {
        Some(selection) => selection,
        None => return None,
    };
    let frames: usize = (selection.end - selection.start) as usize;
    let mut planes: Vec<Vec<u32>> = Vec::new();
    let mut c: usize = 0;
    while c < shape.channels
        invariant
            c <= shape.channels,
            shape == ring.spec_shape(),
            reader.reads(ring),
            selection.start < selection.end,
            frames == selection.end - selection.start,
            ring.spec_holds(selection.start as int, selection.end as int),
            planes@.len() == c,
            forall|d: int|
                0 <= d < c ==> (#[trigger] planes@[d])@ == ring.span(
                    d,
                    selection.start as int,
                    frames as nat,
                ),
        decreases shape.channels - c,
    {
        let mut plane: Vec<u32> = vec![0u32;frames];
        let read: bool = reader.read_into(ring, c, selection.start, plane.as_mut_slice());
        assert(read);
        planes.push(plane);
        c = c + 1;
    }
    Some((selection, planes))
}

/// Captures one event of the block that was captured last, clamped inside it. A refused block
/// leaves no room for events. Frames on the lane must not go backwards, so the events of a block
/// come in the order of their offsets.
pub fn capture_event(
    midi: &mut MidiRing,
    session: &Session,
    captured: u64,
    offset: u32,
    status: u8,
    data1: u8,
    data2: u8,
)
    requires
        old(midi).wf(),
        crate::session::stamp_of(session@.block_start, captured, offset) matches Some(frame) ==> {
            &&& old(midi)@.len() > 0 ==> old(midi)@.last().frame <= frame
            &&& crate::midi::captured(status) ==> old(midi).spec_written() < u64::MAX
        },
    ensures
        final(midi).wf(),
        match crate::session::stamp_of(session@.block_start, captured, offset) {
            Some(frame) => crate::midi::pushed(
                old(midi),
                final(midi),
                Event { frame, status, data1, data2 },
            ),
            None => *final(midi) == *old(midi),
        },
{
    if let Some(frame) = session.stamp(captured, offset) {
        midi.push(frame, status, data1, data2);
    }
}

/// MIDI follows the transport exactly as audio does: an event is stamped on the frame that holds
/// the sample of its own offset in the block, and a refused block takes none.
pub proof fn law_an_event_lies_on_its_sample<N>(
    clock: Captured<N>,
    transport: Transport<N>,
    frames: usize,
    readings: Readings<N>,
    before: &Producer,
    after: &Producer,
    sources: Seq<Seq<u32>>,
    channel: int,
    block_start: u64,
    offset: u32,
)
    requires
        in_step(clock, before),
        crate::clock::counted(begun(clock, transport, frames, readings).0),
        frames <= before.spec_shape().capacity,
        before.spec_shape().wf(),
        0 <= channel < before.spec_shape().channels,
        offset < frames,
        ({
            let advance = begun(clock, transport, frames, readings).1;
            crate::ring::recorded(
                before,
                after,
                sources,
                advance.seam as int,
                advance.frames as int,
            )
        }),
    ensures
        ({
            let (state, advance) = begun(clock, transport, frames, readings);
            let start = begun_at(block_start, clock, transport, frames, readings);
            let stamp = crate::session::stamp_of(start, state.captured as u64, offset);
            &&& in_step(state, after)
            &&& advance.frames == 0 ==> stamp is None
            &&& advance.frames > 0 ==> {
                &&& stamp is Some
                &&& after.spec_holds(stamp->0 as int, stamp->0 + 1)
                &&& after.sample(channel, stamp->0 as int) == sources[crate::ring::clamp_channel(
                    channel,
                    sources.len() as int,
                )][offset as int]
            }
        }),
{
    let (state, advance) = begun(clock, transport, frames, readings);
    if advance.frames > 0 {
        let frame = before.spec_written() + advance.seam + offset;
        assert(after.spec_holds(frame, frame + 1));
        assert(after.sample(channel, frame) == crate::ring::recorded_sample(
            before,
            sources,
            advance.seam as int,
            channel,
            frame,
        ));
    }
}

/// A block with nothing in it is nothing at all: the clock and the place of the events that follow
/// stay as they were, and so does what the ring holds.
pub proof fn law_an_empty_block_changes_nothing<N>(
    clock: Captured<N>,
    transport: Transport<N>,
    readings: Readings<N>,
    block_start: u64,
    before: &Producer,
    after: &Producer,
    sources: Seq<Seq<u32>>,
    channel: int,
    frame: int,
)
    requires
        before.spec_shape().wf(),
        0 <= channel < before.spec_shape().channels,
        before.spec_holds(frame, frame + 1),
        crate::ring::recorded(before, after, sources, 0, 0),
    ensures
        begun(clock, transport, 0, readings) == (clock, Advance { seam: 0, frames: 0 }),
        begun_at(block_start, clock, transport, 0, readings) == block_start,
        after.spec_written() == before.spec_written(),
        after.sample(channel, frame) == before.sample(channel, frame),
{
}

} // verus!
