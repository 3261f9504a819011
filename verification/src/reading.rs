//! Reading exported files back: what a player finds in them is what was put in.
use crate::grid::Selection;
use crate::ring::Producer;
use crate::smf::{Clip, Note, Placed, SmfOptions};
use crate::tempo::{Meter, Segment};
use crate::wav::{Depth, WavSpec};
use vstd::prelude::*;
use vstd::utf8::*;

verus! {

/// A message that a track can hold: one of a channel with two data bytes, or metadata that says
/// how long it is.
pub open spec fn is_message(bytes: Seq<u8>) -> bool {
    ||| bytes.len() == 3 && (0x80 <= bytes[0] < 0xC0 || 0xE0 <= bytes[0] < 0xF0)
    ||| bytes.len() >= 3 && bytes[0] == 0xFF && bytes[2] < 128 && bytes.len() == 3 + bytes[2]
}

/// How long the message at `at` of a track is.
pub open spec fn message_length(track: Seq<u8>, at: int) -> int {
    if track[at] == 0xFF {
        let (length, end) = crate::smf::read_varint(track, at + 2, 0);
        end - at + length
    } else if 0xC0 <= track[at] < 0xE0 {
        2
    } else {
        3
    }
}

/// Reads a track from `at` on, where the events so far end at `tick`: when each event happens, and
/// its bytes.
pub open spec fn read_track(track: Seq<u8>, at: int, tick: int) -> Seq<(int, Seq<u8>)>
    decreases track.len() - at,
{
    let (delta, start) = crate::smf::read_varint(track, at, 0);
    let end = start + message_length(track, start);
    if 0 <= at < start < end <= track.len() {
        seq![(tick + delta, track.subrange(start, end))] + read_track(track, end, tick + delta)
    } else {
        Seq::empty()
    }
}

/// Events as a reader lists them.
pub open spec fn listed(events: Seq<Placed>) -> Seq<(int, Seq<u8>)> {
    events.map_values(|e: Placed| (e.tick, e.bytes))
}

/// The end of a track as a reader lists it.
pub open spec fn end_of_track(events: Seq<Placed>, length: int) -> (int, Seq<u8>) {
    let last = crate::smf::last_tick(events);
    (
        if length > last {
            length
        } else {
            last
        },
        seq![0xFFu8, 0x2F, 0x00],
    )
}

/// How many ticks an event of a track comes after the one before it.
pub open spec fn gap_before(events: Seq<Placed>, i: int) -> int {
    events[i].tick - if i == 0 {
        0
    } else {
        events[i - 1].tick
    }
}

/// No event, and not the end at `length` ticks, comes further behind the one before it than a track
/// can say.
pub open spec fn expressible(events: Seq<Placed>, length: int) -> bool {
    &&& forall|i: int| 0 <= i < events.len() ==> #[trigger] gap_before(events, i) < 0x1000_0000
    &&& length - crate::smf::last_tick(events) < 0x1000_0000
}

/// Events that a track can hold.
pub open spec fn placeable(events: Seq<Placed>) -> bool {
    &&& forall|i: int| 0 <= i < events.len() ==> is_message((#[trigger] events[i]).bytes)
    &&& forall|i: int| 0 <= i < events.len() ==> 0 <= (#[trigger] events[i]).tick
}

/// Every event is a message, and they are in order.
pub open spec fn readable(events: Seq<Placed>) -> bool {
    crate::smf::ticks_in_order(events) && placeable(events)
}

/// What stands in front of a quantity does not change what it says.
proof fn lemma_varint_behind(front: Seq<u8>, bytes: Seq<u8>, at: int, before: nat)
    requires
        0 <= at,
    ensures
        ({
            let (value, end) = crate::smf::read_varint(bytes, at, before);
            crate::smf::read_varint(front + bytes, front.len() + at, before) == (
                value,
                front.len() + end,
            )
        }),
    decreases bytes.len() - at,
{
    let whole = front + bytes;
    if at < bytes.len() {
        assert(whole[front.len() + at] == bytes[at]);
        if bytes[at] >= 128 {
            lemma_varint_behind(front, bytes, at + 1, before * 128 + (bytes[at] - 128) as nat);
        }
    }
}

/// One event of a track is read, and reading goes on behind it.
proof fn lemma_read_event(
    front: Seq<u8>,
    delta: nat,
    message: Seq<u8>,
    back: Seq<u8>,
    tick: int,
)
    requires
        is_message(message),
    ensures
        ({
            let said = crate::smf::varint(delta);
            let track = front + said + message + back;
            let end = (front + said + message).len() as int;
            read_track(track, front.len() as int, tick) == seq![(tick + delta, message)]
                + read_track(track, end, tick + delta)
        }),
{
    let said = crate::smf::varint(delta);
    let track = front + said + message + back;
    let at = front.len() as int;
    let rest = message + back;
    crate::smf::law_varint_reads_back(delta, rest);
    lemma_varint_behind(front, said + rest, 0, 0);
    assert(track =~= front + (said + rest));
    let start = at + said.len();
    assert(crate::smf::read_varint(track, at, 0) == (delta, start));
    assert(said.len() > 0);
    assert forall|k: int| 0 <= k < message.len() implies #[trigger] track[start + k]
        == message[k] by {}
    let end = start + message.len();
    assert(track[start + 0] == message[0]);
    assert(track[start + 2] == message[2]);
    if message[0] == 0xFF {
        assert(crate::smf::read_varint(track, start + 2, 0) == (message[2] as nat, start + 3));
    }
    assert(message_length(track, start) == message.len());
    assert(track.subrange(start, end) =~= message);
}

/// The first events of a track are its first bytes.
proof fn lemma_front_of_track(events: Seq<Placed>, k: int)
    requires
        0 <= k <= events.len(),
    ensures
        ({
            let front = crate::smf::delta_bytes(events.take(k));
            let whole = crate::smf::delta_bytes(events);
            front.len() <= whole.len() && whole == front + whole.skip(front.len() as int)
        }),
    decreases events.len(),
{
    let front = crate::smf::delta_bytes(events.take(k));
    let whole = crate::smf::delta_bytes(events);
    if k == events.len() {
        assert(events.take(k) =~= events);
        assert(whole =~= front + whole.skip(front.len() as int));
    } else {
        let shorter = events.drop_last();
        lemma_front_of_track(shorter, k);
        assert(shorter.take(k) =~= events.take(k));
        assert(whole =~= front + whole.skip(front.len() as int));
    }
}

/// Where the first `k` events of a track end, and what a reader has counted by then.
spec fn read_at(events: Seq<Placed>, length: int, k: int) -> Seq<(int, Seq<u8>)> {
    read_track(
        crate::smf::track_bytes(events, length),
        crate::smf::delta_bytes(events.take(k)).len() as int,
        crate::smf::last_tick(events.take(k)),
    )
}

/// The end of a track is read behind all of its events.
proof fn lemma_read_end(events: Seq<Placed>, length: int)
    requires
        readable(events),
        expressible(events, length),
    ensures
        read_at(events, length, events.len() as int) == seq![end_of_track(events, length)],
{
    let track = crate::smf::track_bytes(events, length);
    let whole = crate::smf::delta_bytes(events);
    let last = crate::smf::last_tick(events);
    let left = if length > last {
        length - last
    } else {
        0
    };
    assert(left % 0x1000_0000 == left);
    assert(events.take(events.len() as int) =~= events);
    let end = seq![0xFFu8, 0x2F, 0x00];
    let said = crate::smf::varint(left as nat);
    lemma_read_event(whole, left as nat, end, Seq::empty(), last);
    assert(whole + said + end + Seq::<u8>::empty() =~= track);
    assert((whole + said + end).len() == track.len());
    lemma_read_past_the_end(track, last + left);
    assert(read_track(track, whole.len() as int, last) =~= seq![(last + left, end)]);
}

/// The next event of a track is read, and reading goes on behind it.
proof fn lemma_read_next(events: Seq<Placed>, length: int, k: int)
    requires
        readable(events),
        expressible(events, length),
        0 <= k < events.len(),
    ensures
        read_at(events, length, k) == seq![(events[k].tick, events[k].bytes)] + read_at(
            events,
            length,
            k + 1,
        ),
{
    let track = crate::smf::track_bytes(events, length);
    let whole = crate::smf::delta_bytes(events);
    let front = events.take(k);
    let more = events.take(k + 1);
    let event = events[k];
    let before = crate::smf::last_tick(front);
    assert(more.drop_last() =~= front);
    assert(more.last() == event);
    if k > 0 {
        assert(front.last() == events[k - 1]);
        assert(crate::smf::no_later(events[k - 1], events[k]));
    }
    let delta = event.tick - before;
    assert(delta == gap_before(events, k));
    assert(delta % 0x1000_0000 == delta);
    let head = crate::smf::delta_bytes(front);
    let said = crate::smf::varint(delta as nat);
    let upto = crate::smf::delta_bytes(more);
    assert(upto == head + said + event.bytes);
    lemma_front_of_track(events, k + 1);
    let tail = track.skip(whole.len() as int);
    assert(track =~= whole + tail);
    let back = whole.skip(upto.len() as int) + tail;
    assert(upto + back =~= track);
    lemma_read_event(head, delta as nat, event.bytes, back, before);
}

/// Reading goes on from any event of a track.
proof fn lemma_read_from(events: Seq<Placed>, length: int, k: int)
    requires
        readable(events),
        expressible(events, length),
        0 <= k <= events.len(),
    ensures
        read_at(events, length, k) == listed(events.skip(k)).push(end_of_track(events, length)),
    decreases events.len() - k,
{
    let end = end_of_track(events, length);
    if k == events.len() {
        lemma_read_end(events, length);
        assert(listed(events.skip(k)).push(end) =~= seq![end]);
    } else {
        lemma_read_next(events, length, k);
        lemma_read_from(events, length, k + 1);
        assert(seq![(events[k].tick, events[k].bytes)] + listed(events.skip(k + 1)).push(end)
            =~= listed(events.skip(k)).push(end));
    }
}

/// There is nothing behind the end.
proof fn lemma_read_past_the_end(track: Seq<u8>, tick: int)
    ensures
        read_track(track, track.len() as int, tick) == Seq::<(int, Seq<u8>)>::empty(),
{
}

/// A track reads back as the events that were written, each at its tick, and then its end.
pub proof fn law_a_track_reads_back(events: Seq<Placed>, length: int)
    requires
        readable(events),
        expressible(events, length),
    ensures
        read_track(crate::smf::track_bytes(events, length), 0, 0) == listed(events).push(
            end_of_track(events, length),
        ),
{
    lemma_read_from(events, length, 0);
    assert(events.take(0) =~= Seq::empty());
    assert(events.skip(0) =~= events);
}

/// The ticks of some events are below what one quantity can say.
spec fn below(events: Seq<Placed>) -> bool {
    forall|i: int| 0 <= i < events.len() ==> (#[trigger] events[i]).tick < 0x1000_0000
}

/// What a clip comes to is over before a track needs more than one quantity can say: every tempo
/// change, controller and bend of the selection, its end, and every release.
pub open spec fn short<N>(
    within: Selection,
    segments: Seq<Segment<N>>,
    clip: Clip,
    let_ring: bool,
    tick: spec_fn(u64) -> u32,
) -> bool {
    &&& tick(within.end) < 0x1000_0000
    &&& changes_below(crate::tempo::changes_between(segments, within.start, within.end), tick)
    &&& controls_below(clip.controls@, within, tick)
    &&& bends_below(clip.bends@, within, tick)
    &&& releases_below(clip.notes@, within, let_ring, tick)
}

pub open spec fn changes_below<N>(
    changes: Seq<(u64, N, Meter)>,
    tick: spec_fn(u64) -> u32,
) -> bool {
    forall|i: int| 0 <= i < changes.len() ==> tick((#[trigger] changes[i]).0) < 0x1000_0000
}

pub open spec fn controls_below(
    controls: Seq<crate::smf::ControlChange>,
    within: Selection,
    tick: spec_fn(u64) -> u32,
) -> bool {
    forall|i: int|
        0 <= i < controls.len() && within.start <= (#[trigger] controls[i]).frame < within.end
            ==> tick(controls[i].frame) < 0x1000_0000
}

pub open spec fn bends_below(
    bends: Seq<crate::smf::PitchBend>,
    within: Selection,
    tick: spec_fn(u64) -> u32,
) -> bool {
    forall|i: int|
        0 <= i < bends.len() && within.start <= (#[trigger] bends[i]).frame < within.end ==> tick(
            bends[i].frame,
        ) < 0x1000_0000
}

pub open spec fn releases_below(
    notes: Seq<Note>,
    within: Selection,
    let_ring: bool,
    tick: spec_fn(u64) -> u32,
) -> bool {
    forall|i: int|
        0 <= i < notes.len() && within.start <= (#[trigger] notes[i]).start < within.end
            ==> crate::smf::off_tick(notes[i], within.end, let_ring, tick) < 0x1000_0000
}

proof fn lemma_signature_placeable(tick: int, micros: int, meter: Meter)
    requires
        0 <= tick,
    ensures
        placeable(crate::smf::signature_events(tick, micros, meter)),
        tick < 0x1000_0000 ==> below(crate::smf::signature_events(tick, micros, meter)),
{
}

proof fn lemma_name_placeable(name: Seq<char>)
    ensures
        placeable(crate::smf::name_events(name)),
        below(crate::smf::name_events(name)),
{
    let bytes = encode_utf8(name);
    let kept = if bytes.len() > 127 {
        bytes.take(127)
    } else {
        bytes
    };
    let message = seq![0xFFu8, 0x03, kept.len() as u8] + kept;
    assert(message[2] == kept.len());
    assert(is_message(message));
}

proof fn lemma_changes_placeable<N>(
    changes: Seq<(u64, N, Meter)>,
    tick: spec_fn(u64) -> u32,
    micros: spec_fn(N) -> u64,
)
    ensures
        placeable(crate::smf::change_events(changes, tick, micros)),
        changes_below(changes, tick) ==> below(crate::smf::change_events(changes, tick, micros)),
    decreases changes.len(),
{
    if changes.len() > 0 {
        lemma_changes_placeable(changes.drop_last(), tick, micros);
        let (frame, bpm, meter) = changes.last();
        lemma_signature_placeable(tick(frame) as int, micros(bpm) as int, meter);
        let shorter = changes.drop_last();
        if changes_below(changes, tick) {
            assert(tick(changes[changes.len() - 1].0) < 0x1000_0000);
            assert forall|i: int| 0 <= i < shorter.len() implies tick((#[trigger] shorter[i]).0)
                < 0x1000_0000 by {
                assert(shorter[i] == changes[i]);
            }
        }
    }
}

proof fn lemma_control_snapshot_placeable(
    controls: Seq<crate::smf::ControlChange>,
    start: u64,
    n: nat,
)
    requires
        n <= 2048,
    ensures
        placeable(crate::smf::control_snapshot(controls, start, n)),
        below(crate::smf::control_snapshot(controls, start, n)),
    decreases n,
{
    if n > 0 {
        lemma_control_snapshot_placeable(controls, start, (n - 1) as nat);
    }
}

proof fn lemma_bend_snapshot_placeable(bends: Seq<crate::smf::PitchBend>, start: u64, n: nat)
    requires
        n <= 16,
    ensures
        placeable(crate::smf::bend_snapshot(bends, start, n)),
        below(crate::smf::bend_snapshot(bends, start, n)),
    decreases n,
{
    if n > 0 {
        lemma_bend_snapshot_placeable(bends, start, (n - 1) as nat);
    }
}

proof fn lemma_controls_placeable(
    controls: Seq<crate::smf::ControlChange>,
    within: Selection,
    tick: spec_fn(u64) -> u32,
)
    ensures
        placeable(crate::smf::control_events(controls, within, tick)),
        controls_below(controls, within, tick) ==> below(crate::smf::control_events(controls, within, tick)),
    decreases controls.len(),
{
    if controls.len() > 0 {
        lemma_controls_placeable(controls.drop_last(), within, tick);
        let shorter = controls.drop_last();
        if controls_below(controls, within, tick) {
            assert(controls[controls.len() - 1] == controls.last());
            assert forall|i: int|
                0 <= i < shorter.len() && within.start <= (#[trigger] shorter[i]).frame
                    < within.end implies tick(shorter[i].frame) < 0x1000_0000 by {
                assert(shorter[i] == controls[i]);
            }
        }
    }
}

proof fn lemma_bends_placeable(
    bends: Seq<crate::smf::PitchBend>,
    within: Selection,
    tick: spec_fn(u64) -> u32,
)
    ensures
        placeable(crate::smf::bend_events(bends, within, tick)),
        bends_below(bends, within, tick) ==> below(crate::smf::bend_events(bends, within, tick)),
    decreases bends.len(),
{
    if bends.len() > 0 {
        lemma_bends_placeable(bends.drop_last(), within, tick);
        let shorter = bends.drop_last();
        if bends_below(bends, within, tick) {
            assert(bends[bends.len() - 1] == bends.last());
            assert forall|i: int|
                0 <= i < shorter.len() && within.start <= (#[trigger] shorter[i]).frame
                    < within.end implies tick(shorter[i].frame) < 0x1000_0000 by {
                assert(shorter[i] == bends[i]);
            }
        }
    }
}

proof fn lemma_notes_placeable(
    notes: Seq<Note>,
    within: Selection,
    let_ring: bool,
    tick: spec_fn(u64) -> u32,
)
    ensures
        placeable(crate::smf::note_events(notes, within, let_ring, tick)),
        releases_below(notes, within, let_ring, tick) ==> below(
            crate::smf::note_events(notes, within, let_ring, tick),
        ),
        releases_below(notes, within, let_ring, tick) && tick(within.end) < 0x1000_0000
            ==> crate::smf::length_of(notes, within, let_ring, tick) < 0x1000_0000,
    decreases notes.len(),
{
    if notes.len() > 0 {
        lemma_notes_placeable(notes.drop_last(), within, let_ring, tick);
        let shorter = notes.drop_last();
        if releases_below(notes, within, let_ring, tick) {
            assert(notes[notes.len() - 1] == notes.last());
            assert forall|i: int|
                0 <= i < shorter.len() && within.start <= (#[trigger] shorter[i]).start
                    < within.end implies crate::smf::off_tick(
                shorter[i],
                within.end,
                let_ring,
                tick,
            ) < 0x1000_0000 by {
                assert(shorter[i] == notes[i]);
            }
        }
    }
}

/// What has every event of another run of events can be placed where that can.
proof fn lemma_placeable_in_order(events: Seq<Placed>)
    requires
        placeable(events),
    ensures
        placeable(crate::smf::in_track_order(events)),
        below(events) ==> below(crate::smf::in_track_order(events)),
{
    broadcast use vstd::seq_lib::group_to_multiset_ensures;

    crate::smf::law_track_order(events);
    let ordered = crate::smf::in_track_order(events);
    assert forall|i: int| 0 <= i < ordered.len() implies is_message((#[trigger] ordered[i]).bytes)
        && 0 <= ordered[i].tick && (below(events) ==> ordered[i].tick < 0x1000_0000) by {
        assert(ordered.contains(ordered[i]));
        assert(events.to_multiset().count(ordered[i]) > 0);
        assert(events.contains(ordered[i]));
    }
}

/// Everything that a selection of a clip comes to can be placed, below what one quantity can say
/// where the clip is short.
proof fn lemma_clip_placeable<N>(
    within: Selection,
    segments: Seq<Segment<N>>,
    clip: Clip,
    options: SmfOptions,
    tick: spec_fn(u64) -> u32,
    micros: spec_fn(N) -> u64,
)
    ensures
        ({
            let placed = crate::smf::clip_events(within, segments, clip, options, tick, micros);
            &&& placeable(placed)
            &&& short(within, segments, clip, options.let_ring, tick) ==> below(placed)
        }),
{
    let opening = segments[crate::tempo::in_force_at(segments, within.start)];
    lemma_name_placeable(options.name@);
    lemma_signature_placeable(0, micros(opening.bpm) as int, opening.meter);
    lemma_changes_placeable(
        crate::tempo::changes_between(segments, within.start, within.end),
        tick,
        micros,
    );
    lemma_control_snapshot_placeable(clip.controls@, within.start, 2048);
    lemma_bend_snapshot_placeable(clip.bends@, within.start, 16);
    lemma_controls_placeable(clip.controls@, within, tick);
    lemma_bends_placeable(clip.bends@, within, tick);
    lemma_notes_placeable(clip.notes@, within, options.let_ring, tick);
}

/// An exported clip reads back as what the selection comes to, in order: every tempo, controller,
/// pitch bend and note at its tick, and the end where the clip ends.
pub proof fn law_an_exported_clip_reads_back<N>(
    within: Selection,
    segments: Seq<Segment<N>>,
    clip: Clip,
    options: SmfOptions,
    tick: spec_fn(u64) -> u32,
    micros: spec_fn(N) -> u64,
)
    requires
        expressible(
            crate::smf::in_track_order(
                crate::smf::clip_events(within, segments, clip, options, tick, micros),
            ),
            crate::smf::length_of(clip.notes@, within, options.let_ring, tick),
        ),
    ensures
        ({
            let events = crate::smf::in_track_order(
                crate::smf::clip_events(within, segments, clip, options, tick, micros),
            );
            let length = crate::smf::length_of(clip.notes@, within, options.let_ring, tick);
            read_track(crate::smf::track_bytes(events, length), 0, 0) == listed(events).push(
                end_of_track(events, length),
            )
        }),
{
    let placed = crate::smf::clip_events(within, segments, clip, options, tick, micros);
    lemma_clip_placeable(within, segments, clip, options, tick, micros);
    lemma_placeable_in_order(placed);
    crate::smf::law_track_order(placed);
    law_a_track_reads_back(
        crate::smf::in_track_order(placed),
        crate::smf::length_of(clip.notes@, within, options.let_ring, tick),
    );
}

/// A clip that is short enough can be expressed, and so reads back.
pub proof fn law_a_short_clip_is_expressible<N>(
    within: Selection,
    segments: Seq<Segment<N>>,
    clip: Clip,
    options: SmfOptions,
    tick: spec_fn(u64) -> u32,
    micros: spec_fn(N) -> u64,
)
    requires
        short(within, segments, clip, options.let_ring, tick),
    ensures
        expressible(
            crate::smf::in_track_order(
                crate::smf::clip_events(within, segments, clip, options, tick, micros),
            ),
            crate::smf::length_of(clip.notes@, within, options.let_ring, tick),
        ),
{
    let placed = crate::smf::clip_events(within, segments, clip, options, tick, micros);
    let events = crate::smf::in_track_order(placed);
    lemma_clip_placeable(within, segments, clip, options, tick, micros);
    lemma_placeable_in_order(placed);
    lemma_notes_placeable(clip.notes@, within, options.let_ring, tick);
    assert forall|i: int| 0 <= i < events.len() implies #[trigger] gap_before(events, i)
        < 0x1000_0000 by {
        assert(events[i].tick < 0x1000_0000);
        if i > 0 {
            assert(0 <= events[i - 1].tick);
        }
    }
}

/// Onset decides what is exported: every note message of a clip is the strike or the release of a
/// note that was struck inside the selection.
pub proof fn law_onset_decides_what_is_exported(
    notes: Seq<Note>,
    within: Selection,
    let_ring: bool,
    tick: spec_fn(u64) -> u32,
    i: int,
) -> (n: int)
    requires
        0 <= i < crate::smf::note_events(notes, within, let_ring, tick).len(),
    ensures
        0 <= n < notes.len(),
        within.start <= notes[n].start < within.end,
        ({
            let event = crate::smf::note_events(notes, within, let_ring, tick)[i];
            ||| event.tick == tick(notes[n].start) && event.bytes == crate::smf::on_bytes(notes[n])
            ||| event.tick == crate::smf::off_tick(notes[n], within.end, let_ring, tick)
                && event.bytes == crate::smf::off_bytes(notes[n])
        }),
    decreases notes.len(),
{
    let earlier = crate::smf::note_events(notes.drop_last(), within, let_ring, tick);
    if i < earlier.len() {
        law_onset_decides_what_is_exported(notes.drop_last(), within, let_ring, tick, i)
    } else {
        notes.len() - 1
    }
}

/// Every note struck inside the selection is exported, its strike and its release.
pub proof fn law_every_note_is_exported(
    notes: Seq<Note>,
    within: Selection,
    let_ring: bool,
    tick: spec_fn(u64) -> u32,
    n: int,
) -> (i: int)
    requires
        0 <= n < notes.len(),
        within.start <= notes[n].start < within.end,
    ensures
        ({
            let events = crate::smf::note_events(notes, within, let_ring, tick);
            &&& 0 <= i && i + 1 < events.len()
            &&& events[i].tick == tick(notes[n].start)
            &&& events[i].bytes == crate::smf::on_bytes(notes[n])
            &&& events[i + 1].tick == crate::smf::off_tick(notes[n], within.end, let_ring, tick)
            &&& events[i + 1].bytes == crate::smf::off_bytes(notes[n])
        }),
    decreases notes.len(),
{
    let earlier = crate::smf::note_events(notes.drop_last(), within, let_ring, tick);
    if n < notes.len() - 1 {
        law_every_note_is_exported(notes.drop_last(), within, let_ring, tick, n)
    } else {
        earlier.len() as int
    }
}

/// A tempo or meter change inside a selection is carried into the file, at its tick.
pub proof fn law_every_tempo_change_is_exported<N>(
    segments: Seq<Segment<N>>,
    within: Selection,
    tick: spec_fn(u64) -> u32,
    micros: spec_fn(N) -> u64,
    n: int,
) -> (i: int)
    requires
        0 <= n < segments.len(),
        within.start < segments[n].frame < within.end,
    ensures
        ({
            let changes = crate::tempo::changes_between(segments, within.start, within.end);
            let events = crate::smf::change_events(changes, tick, micros);
            let at = tick(segments[n].frame) as int;
            &&& 0 <= i && i + 1 < events.len()
            &&& events[i].tick == at && events[i + 1].tick == at
            &&& events[i].bytes == crate::smf::tempo_bytes(micros(segments[n].bpm) as int)
            &&& events[i + 1].bytes == crate::smf::meter_bytes(segments[n].meter)
        }),
    decreases segments.len(),
{
    let shorter = segments.drop_last();
    let earlier = crate::tempo::changes_between(shorter, within.start, within.end);
    let changes = crate::tempo::changes_between(segments, within.start, within.end);
    if changes.len() > earlier.len() {
        assert(changes.drop_last() =~= earlier);
    }
    if n < segments.len() - 1 {
        law_every_tempo_change_is_exported(shorter, within, tick, micros, n)
    } else {
        crate::smf::change_events(earlier, tick, micros).len() as int
    }
}

/// A float file of a range of a ring gives back, bit for bit, what the ring holds there.
pub proof fn law_an_exported_range_is_what_the_ring_holds(
    ring: &Producer,
    spec: WavSpec,
    start: int,
    frames: nat,
    frame: int,
    channel: int,
)
    requires
        spec.depth == Depth::F32,
        0 <= channel < ring.spec_shape().channels,
        0 <= frame < frames,
    ensures
        ({
            let channels = ring.spec_shape().channels as nat;
            let planes = Seq::new(channels, |c: int| ring.span(c, start, frames));
            crate::bytes::read_le32(
                crate::wav::samples_bytes(planes, spec, frames * channels),
                4 * (frame * channels + channel),
            ) == ring.sample(channel, start + frame)
        }),
{
    let channels = ring.spec_shape().channels as nat;
    let planes = Seq::new(channels, |c: int| ring.span(c, start, frames));
    assert(frame * channels + channel < frames * channels) by (nonlinear_arith)
        requires
            0 <= frame < frames,
            0 <= channel < channels,
    ;
    crate::wav::law_float_samples_round_trip(planes, spec, frames * channels, frame, channel);
}

/// A two's-complement integer of `width` bytes, low byte first.
pub open spec fn read_integer(bytes: Seq<u8>, at: int, width: int) -> int {
    if width == 2 {
        let raw = bytes[at] + bytes[at + 1] * 256;
        if raw >= 0x8000 {
            raw - 0x1_0000
        } else {
            raw
        }
    } else {
        let raw = bytes[at] + bytes[at + 1] * 256 + bytes[at + 2] * 65536;
        if raw >= 0x80_0000 {
            raw - 0x100_0000
        } else {
            raw
        }
    }
}

/// The sample that a file holds for a channel of a frame, at its depth.
pub open spec fn stored(planes: Seq<Seq<u32>>, spec: WavSpec, frame: int, channel: int) -> int {
    let n = (frame * planes.len() + channel) as nat;
    crate::quantise::quantised(
        planes[channel][frame],
        spec.depth.spec_bits() - 1,
        crate::wav::noise_of(spec, n),
    )
}

/// Two bytes of two's complement read back.
proof fn lemma_two_bytes(value: int)
    requires
        -0x8000 <= value < 0x8000,
    ensures
        read_integer(crate::bytes::le16(value % 0x1_0000), 0, 2) == value,
{
}

/// Three bytes of two's complement read back.
proof fn lemma_three_bytes(value: int)
    requires
        -0x80_0000 <= value < 0x80_0000,
    ensures
        read_integer(crate::bytes::le24(value % 0x100_0000), 0, 3) == value,
{
}

/// Samples are interleaved: those of a frame stand side by side, at every depth.
pub proof fn law_samples_are_interleaved(
    planes: Seq<Seq<u32>>,
    spec: WavSpec,
    total: nat,
    frame: int,
    channel: int,
)
    requires
        0 <= channel < planes.len(),
        0 <= frame,
        frame * planes.len() + channel < total,
    ensures
        ({
            let width = spec.depth.spec_bits() as int / 8;
            let n = frame * planes.len() + channel;
            let bytes = crate::wav::samples_bytes(planes, spec, total);
            &&& 0 <= width * n
            &&& width * n + width <= bytes.len()
            &&& bytes.subrange(width * n, width * n + width) == crate::wav::sample_bytes(
                planes[channel][frame],
                spec,
                n as nat,
            )
        }),
    decreases total,
{
    let width = spec.depth.spec_bits() as int / 8;
    let i = (total - 1) as nat;
    let n = frame * planes.len() + channel;
    let earlier = crate::wav::samples_bytes(planes, spec, i);
    let bytes = crate::wav::samples_bytes(planes, spec, total);
    crate::wav::law_samples_fill_their_blocks(planes, spec, i);
    assert(0 <= frame * planes.len()) by (nonlinear_arith)
        requires
            0 <= frame,
    ;
    assert(0 <= width * n) by (nonlinear_arith)
        requires
            n >= 0,
            width >= 0,
    ;
    if n < i {
        law_samples_are_interleaved(planes, spec, i, frame, channel);
        assert(bytes.subrange(width * n, width * n + width) =~= earlier.subrange(
            width * n,
            width * n + width,
        ));
    } else {
        assert(frame * planes.len() == planes.len() * frame) by (nonlinear_arith);
        vstd::arithmetic::div_mod::lemma_fundamental_div_mod_converse(
            i as int,
            planes.len() as int,
            frame,
            channel,
        );
        assert(width * n == i * width) by (nonlinear_arith)
            requires
                n == i,
        ;
        let sample = crate::wav::sample_bytes(planes[channel][frame], spec, i);
        assert(bytes == earlier + sample);
        assert(bytes.subrange(width * n, width * n + width) =~= sample);
    }
}

/// An integer file gives back every sample as it was quantised, interleaved.
pub proof fn law_integer_samples_read_back(
    planes: Seq<Seq<u32>>,
    spec: WavSpec,
    total: nat,
    frame: int,
    channel: int,
)
    requires
        spec.depth != Depth::F32,
        0 <= channel < planes.len(),
        0 <= frame,
        frame * planes.len() + channel < total,
    ensures
        ({
            let width = spec.depth.spec_bits() as int / 8;
            read_integer(
                crate::wav::samples_bytes(planes, spec, total),
                width * (frame * planes.len() + channel),
                width,
            ) == stored(planes, spec, frame, channel)
        }),
{
    let width = spec.depth.spec_bits() as int / 8;
    let at = width * (frame * planes.len() + channel);
    let bytes = crate::wav::samples_bytes(planes, spec, total);
    let sample = bytes.subrange(at, at + width);
    let value = stored(planes, spec, frame, channel);
    law_samples_are_interleaved(planes, spec, total, frame, channel);
    vstd::arithmetic::power2::lemma2_to64();
    if width == 2 {
        lemma_two_bytes(value);
    } else {
        lemma_three_bytes(value);
    }
    assert(sample[0] == bytes[at]);
    assert(sample[1] == bytes[at + 1]);
    if width == 3 {
        assert(sample[2] == bytes[at + 2]);
    }
}

} // verus!
