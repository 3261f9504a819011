//! What a player finds in an exported MIDI file.
use crate::grid::Selection;
use crate::smf::{Clip, ControlChange, Note, PitchBend, Placed, Rank, SmfOptions};
use crate::tempo::{Meter, Segment};
use vstd::arithmetic::power2::*;
use vstd::prelude::*;
use vstd::utf8::*;

verus! {

/// The larger of two numbers.
pub open spec fn larger(a: int, b: int) -> int {
    if a >= b {
        a
    } else {
        b
    }
}

/// The later of two frames.
pub open spec fn later(a: u64, b: u64) -> u64 {
    if a >= b {
        a
    } else {
        b
    }
}

/// A note struck inside the selection is struck in the clip where it was played, and let go where
/// its key was let go: past the end of the selection only where notes may ring, and at that end
/// where they may not or where the key was never let go. It lasts at least one tick.
pub proof fn law_a_note_is_let_go_where_its_key_was(
    notes: Seq<Note>,
    within: Selection,
    let_ring: bool,
    tick: spec_fn(u64) -> u32,
    n: int,
) -> (i: int)
    requires
        0 <= n < notes.len(),
        within.start <= notes[n].start < within.end,
    ensures
        ({
            let note = notes[n];
            let events = crate::smf::note_events(notes, within, let_ring, tick);
            let least = tick(note.start) + 1;
            &&& 0 <= i && i + 1 < events.len()
            &&& events[i].tick == tick(note.start)
            &&& events[i].rank == Rank::NoteOn
            &&& events[i + 1].rank == Rank::NoteOff
            &&& note.end is None ==> events[i + 1].tick == larger(tick(within.end) as int, least)
            &&& note.end matches Some(stop) ==> {
                &&& let_ring ==> events[i + 1].tick == larger(
                    tick(later(stop, note.start)) as int,
                    least,
                )
                &&& !let_ring && stop <= within.end ==> events[i + 1].tick == larger(
                    tick(later(stop, note.start)) as int,
                    least,
                )
                &&& !let_ring && stop > within.end ==> events[i + 1].tick == larger(
                    tick(within.end) as int,
                    least,
                )
            }
        }),
    decreases notes.len(),
{
    if n < notes.len() - 1 {
        law_a_note_is_let_go_where_its_key_was(notes.drop_last(), within, let_ring, tick, n)
    } else {
        crate::smf::note_events(notes.drop_last(), within, let_ring, tick).len() as int
    }
}

/// Letting notes ring changes nothing for a note whose key was let go inside the selection.
pub proof fn law_ringing_is_only_past_the_end(
    note: Note,
    end: u64,
    stop: u64,
    tick: spec_fn(u64) -> u32,
)
    requires
        note.end == Some(stop),
        stop <= end,
    ensures
        crate::smf::off_tick(note, end, true, tick) == crate::smf::off_tick(note, end, false, tick),
        stop >= note.start && tick(stop) > tick(note.start) ==> crate::smf::off_tick(
            note,
            end,
            true,
            tick,
        ) == tick(stop),
{
}

/// A note keeps its channel, its key and its velocities. A strike always has a velocity, or it
/// would be a release.
pub proof fn law_a_note_keeps_its_key_and_velocity(
    notes: Seq<Note>,
    within: Selection,
    let_ring: bool,
    tick: spec_fn(u64) -> u32,
    n: int,
) -> (i: int)
    requires
        0 <= n < notes.len(),
        within.start <= notes[n].start < within.end,
    ensures
        ({
            let note = notes[n];
            let events = crate::smf::note_events(notes, within, let_ring, tick);
            &&& 0 <= i && i + 1 < events.len()
            &&& events[i].bytes.len() == 3
            &&& events[i].bytes[0] == 0x90 + note.channel % 16
            &&& events[i].bytes[1] == note.key % 128
            &&& note.on_velocity == 0 ==> events[i].bytes[2] == 1
            &&& 1 <= note.on_velocity <= 127 ==> events[i].bytes[2] == note.on_velocity
            &&& note.on_velocity > 127 ==> events[i].bytes[2] == 127
            &&& events[i + 1].bytes.len() == 3
            &&& events[i + 1].bytes[0] == 0x80 + note.channel % 16
            &&& events[i + 1].bytes[1] == note.key % 128
            &&& events[i + 1].bytes[2] == note.off_velocity % 128
        }),
    decreases notes.len(),
{
    if n < notes.len() - 1 {
        law_a_note_keeps_its_key_and_velocity(notes.drop_last(), within, let_ring, tick, n)
    } else {
        crate::smf::note_events(notes.drop_last(), within, let_ring, tick).len() as int
    }
}

/// A clip has two messages for each note struck inside the selection, and none for any other.
pub proof fn law_only_notes_struck_inside_are_exported(
    notes: Seq<Note>,
    within: Selection,
    let_ring: bool,
    tick: spec_fn(u64) -> u32,
)
    ensures
        crate::smf::note_events(notes, within, let_ring, tick).len() == 2 * notes.filter(
            |note: Note| within.start <= note.start < within.end,
        ).len(),
    decreases notes.len(),
{
    reveal(Seq::filter);
    if notes.len() > 0 {
        law_only_notes_struck_inside_are_exported(notes.drop_last(), within, let_ring, tick);
    }
}

/// A clip lasts to the end of its selection, or to the last release where that is later, and no
/// longer.
pub proof fn law_a_clip_lasts_to_its_last_release(
    notes: Seq<Note>,
    within: Selection,
    let_ring: bool,
    tick: spec_fn(u64) -> u32,
)
    ensures
        ({
            let events = crate::smf::note_events(notes, within, let_ring, tick);
            let length = crate::smf::length_of(notes, within, let_ring, tick);
            &&& tick(within.end) <= length
            &&& forall|i: int| 0 <= i < events.len() ==> (#[trigger] events[i]).tick <= length
            &&& length == tick(within.end) || exists|i: int|
                0 <= i < events.len() && (#[trigger] events[i]).tick == length
        }),
    decreases notes.len(),
{
    if notes.len() > 0 {
        let shorter = notes.drop_last();
        law_a_clip_lasts_to_its_last_release(shorter, within, let_ring, tick);
        let earlier = crate::smf::note_events(shorter, within, let_ring, tick);
        let events = crate::smf::note_events(notes, within, let_ring, tick);
        let before = crate::smf::length_of(shorter, within, let_ring, tick);
        let length = crate::smf::length_of(notes, within, let_ring, tick);
        assert forall|i: int| 0 <= i < events.len() implies (#[trigger] events[i]).tick <= length by {
            if i < earlier.len() {
                assert(events[i] == earlier[i]);
            }
        }
        if length != tick(within.end) {
            if length == before {
                let i = choose|i: int|
                    0 <= i < earlier.len() && (#[trigger] earlier[i]).tick == before;
                assert(events[i] == earlier[i]);
            } else {
                assert(events[events.len() - 1].tick == length);
            }
        }
    }
}

/// What a tempo message says: microseconds per quarter note in 24 bits, the nearest that fits.
pub open spec fn says_tempo(bytes: Seq<u8>, micros: int) -> bool {
    &&& bytes.len() == 6
    &&& bytes[0] == 0xFF && bytes[1] == 0x51 && bytes[2] == 3
    &&& ({
        let said = bytes[5] + 0x100 * bytes[4] + 0x1_0000 * bytes[3];
        &&& 1 <= micros <= 0xFF_FFFF ==> said == micros
        &&& micros < 1 ==> said == 1
        &&& micros > 0xFF_FFFF ==> said == 0xFF_FFFF
    })
}

/// What a meter message says: the numerator, the power of two nearest to the denominator, 24 clocks
/// to a click and 8 thirty-seconds to a quarter.
pub open spec fn says_meter(bytes: Seq<u8>, meter: Meter) -> bool {
    &&& bytes.len() == 7
    &&& bytes[0] == 0xFF && bytes[1] == 0x58 && bytes[2] == 4
    &&& 1 <= meter.num <= 255 ==> bytes[3] == meter.num
    &&& meter.num == 0 ==> bytes[3] == 1
    &&& meter.num > 255 ==> bytes[3] == 255
    &&& bytes[4] <= 7
    &&& bytes[4] > 0 ==> meter.den * meter.den >= pow2((2 * bytes[4] - 1) as nat)
    &&& bytes[4] < 7 ==> meter.den * meter.den < pow2((2 * bytes[4] + 1) as nat)
    &&& bytes[5] == 24 && bytes[6] == 8
}

/// A tempo message says the tempo.
pub proof fn law_a_tempo_is_said(micros: int)
    ensures
        says_tempo(crate::smf::tempo_bytes(micros), micros),
{
    let said = if micros < 1 {
        1
    } else if micros > 0xFF_FFFF {
        0xFF_FFFF
    } else {
        micros
    };
    crate::laws::bytes::law_three_bytes_hold_their_number(said);
    let bytes = crate::smf::tempo_bytes(micros);
    let number = crate::bytes::be24(said);
    assert(bytes[3] == number[0] && bytes[4] == number[1] && bytes[5] == number[2]);
}

proof fn lemma_nearest_log2(den: int, from: nat)
    requires
        0 <= den,
        from <= 7,
        from > 0 ==> den * den >= pow2((2 * from - 1) as nat),
    ensures
        ({
            let k = crate::smf::nearest_log2(den, from);
            &&& from <= k <= 7
            &&& k > 0 ==> den * den >= pow2((2 * k - 1) as nat)
            &&& k < 7 ==> den * den < pow2(2 * k + 1)
        }),
    decreases 7 - from,
{
    if from < 7 && den * den >= pow2(2 * from + 1) {
        assert(2 * (from + 1) - 1 == 2 * from + 1);
        lemma_nearest_log2(den, from + 1);
    }
}

/// A meter message says the meter.
pub proof fn law_a_meter_is_said(meter: Meter)
    ensures
        says_meter(crate::smf::meter_bytes(meter), meter),
{
    lemma_nearest_log2(meter.den as int, 0);
}

/// A denominator that is a power of two is said exactly.
pub proof fn law_a_power_of_two_is_said_exactly(meter: Meter, bytes: Seq<u8>, k: nat)
    requires
        says_meter(bytes, meter),
        k <= 7,
        meter.den == pow2(k),
    ensures
        bytes[4] == k,
{
    let said = bytes[4] as nat;
    lemma_pow2_adds(k, k);
    if said > k {
        if 2 * k < 2 * said - 1 {
            lemma_pow2_strictly_increases(2 * k, (2 * said - 1) as nat);
        }
    } else if said < k {
        if 2 * said + 1 < 2 * k {
            lemma_pow2_strictly_increases(2 * said + 1, 2 * k);
        }
    }
}

/// Where the parts of a clip stand in it.
proof fn lemma_parts<N>(
    within: Selection,
    segments: Seq<Segment<N>>,
    clip: Clip,
    options: SmfOptions,
    tick: spec_fn(u64) -> u32,
    micros: spec_fn(N) -> u64,
)
    ensures
        ({
            let opening = segments[crate::tempo::in_force_at(segments, within.start)];
            let a = crate::smf::name_events(options.name@);
            let b = crate::smf::signature_events(0, micros(opening.bpm) as int, opening.meter);
            let c = crate::smf::change_events(
                crate::tempo::changes_between(segments, within.start, within.end),
                tick,
                micros,
            );
            let d = crate::smf::control_snapshot(clip.controls@, within.start, 2048);
            let e = crate::smf::bend_snapshot(clip.bends@, within.start, 16);
            let f = crate::smf::control_events(clip.controls@, within, tick);
            let g = crate::smf::bend_events(clip.bends@, within, tick);
            let h = crate::smf::note_events(clip.notes@, within, options.let_ring, tick);
            let whole = crate::smf::clip_events(within, segments, clip, options, tick, micros);
            &&& whole.len() == a.len() + b.len() + c.len() + d.len() + e.len() + f.len() + g.len()
                + h.len()
            &&& forall|i: int| 0 <= i < a.len() ==> whole.contains(#[trigger] a[i])
            &&& forall|i: int| 0 <= i < b.len() ==> whole.contains(#[trigger] b[i])
            &&& forall|i: int| 0 <= i < c.len() ==> whole.contains(#[trigger] c[i])
            &&& forall|i: int| 0 <= i < d.len() ==> whole.contains(#[trigger] d[i])
            &&& forall|i: int| 0 <= i < e.len() ==> whole.contains(#[trigger] e[i])
            &&& forall|i: int| 0 <= i < f.len() ==> whole.contains(#[trigger] f[i])
            &&& forall|i: int| 0 <= i < g.len() ==> whole.contains(#[trigger] g[i])
            &&& forall|i: int| 0 <= i < h.len() ==> whole.contains(#[trigger] h[i])
        }),
{
    let opening = segments[crate::tempo::in_force_at(segments, within.start)];
    lemma_eight_parts(
        crate::smf::name_events(options.name@),
        crate::smf::signature_events(0, micros(opening.bpm) as int, opening.meter),
        crate::smf::change_events(
            crate::tempo::changes_between(segments, within.start, within.end),
            tick,
            micros,
        ),
        crate::smf::control_snapshot(clip.controls@, within.start, 2048),
        crate::smf::bend_snapshot(clip.bends@, within.start, 16),
        crate::smf::control_events(clip.controls@, within, tick),
        crate::smf::bend_events(clip.bends@, within, tick),
        crate::smf::note_events(clip.notes@, within, options.let_ring, tick),
    );
}

proof fn lemma_eight_parts(
    a: Seq<Placed>,
    b: Seq<Placed>,
    c: Seq<Placed>,
    d: Seq<Placed>,
    e: Seq<Placed>,
    f: Seq<Placed>,
    g: Seq<Placed>,
    h: Seq<Placed>,
)
    ensures
        ({
            let whole = a + b + c + d + e + f + g + h;
            &&& whole.len() == a.len() + b.len() + c.len() + d.len() + e.len() + f.len() + g.len()
                + h.len()
            &&& forall|i: int| 0 <= i < a.len() ==> whole.contains(#[trigger] a[i])
            &&& forall|i: int| 0 <= i < b.len() ==> whole.contains(#[trigger] b[i])
            &&& forall|i: int| 0 <= i < c.len() ==> whole.contains(#[trigger] c[i])
            &&& forall|i: int| 0 <= i < d.len() ==> whole.contains(#[trigger] d[i])
            &&& forall|i: int| 0 <= i < e.len() ==> whole.contains(#[trigger] e[i])
            &&& forall|i: int| 0 <= i < f.len() ==> whole.contains(#[trigger] f[i])
            &&& forall|i: int| 0 <= i < g.len() ==> whole.contains(#[trigger] g[i])
            &&& forall|i: int| 0 <= i < h.len() ==> whole.contains(#[trigger] h[i])
        }),
{
    let whole = a + b + c + d + e + f + g + h;
    let nb = a.len();
    let nc = nb + b.len();
    let nd = nc + c.len();
    let ne = nd + d.len();
    let nf = ne + e.len();
    let ng = nf + f.len();
    let nh = ng + g.len();
    assert forall|i: int| 0 <= i < a.len() implies whole.contains(#[trigger] a[i]) by {
        assert(whole[i] == a[i]);
    }
    assert forall|i: int| 0 <= i < b.len() implies whole.contains(#[trigger] b[i]) by {
        assert(whole[nb + i] == b[i]);
    }
    assert forall|i: int| 0 <= i < c.len() implies whole.contains(#[trigger] c[i]) by {
        assert(whole[nc + i] == c[i]);
    }
    assert forall|i: int| 0 <= i < d.len() implies whole.contains(#[trigger] d[i]) by {
        assert(whole[nd + i] == d[i]);
    }
    assert forall|i: int| 0 <= i < e.len() implies whole.contains(#[trigger] e[i]) by {
        assert(whole[ne + i] == e[i]);
    }
    assert forall|i: int| 0 <= i < f.len() implies whole.contains(#[trigger] f[i]) by {
        assert(whole[nf + i] == f[i]);
    }
    assert forall|i: int| 0 <= i < g.len() implies whole.contains(#[trigger] g[i]) by {
        assert(whole[ng + i] == g[i]);
    }
    assert forall|i: int| 0 <= i < h.len() implies whole.contains(#[trigger] h[i]) by {
        assert(whole[nh + i] == h[i]);
    }
}

/// A clip holds an event that happens at `tick`, ranks with `rank`, and whose bytes `says` accepts.
pub open spec fn happens(
    events: Seq<Placed>,
    tick: int,
    rank: Rank,
    says: spec_fn(Seq<u8>) -> bool,
) -> bool {
    exists|i: int|
        0 <= i < events.len() && (#[trigger] events[i]).tick == tick && events[i].rank == rank
            && says(events[i].bytes)
}

/// What is in a clip is in its track.
proof fn lemma_in_track(
    events: Seq<Placed>,
    event: Placed,
    says: spec_fn(Seq<u8>) -> bool,
)
    requires
        events.contains(event),
        says(event.bytes),
    ensures
        happens(crate::smf::in_track_order(events), event.tick, event.rank, says),
{
    broadcast use vstd::seq_lib::group_to_multiset_ensures;

    crate::smf::law_track_order(events);
    let track = crate::smf::in_track_order(events);
    assert(events.to_multiset().count(event) > 0);
    assert(track.to_multiset().count(event) > 0);
    assert(track.contains(event));
    let i = choose|i: int| 0 <= i < track.len() && track[i] == event;
    assert(track[i].tick == event.tick);
}

/// A clip opens with the tempo and the meter in force where its selection starts.
pub proof fn law_a_clip_opens_with_its_tempo_and_meter<N>(
    within: Selection,
    segments: Seq<Segment<N>>,
    clip: Clip,
    options: SmfOptions,
    tick: spec_fn(u64) -> u32,
    micros: spec_fn(N) -> u64,
    k: int,
)
    requires
        crate::tempo::ordered(segments),
        0 <= k < segments.len(),
        segments[k].frame <= within.start,
        k + 1 < segments.len() ==> within.start < segments[k + 1].frame,
    ensures
        ({
            let track = crate::smf::in_track_order(
                crate::smf::clip_events(within, segments, clip, options, tick, micros),
            );
            &&& happens(
                track,
                0,
                Rank::Meta,
                |bytes: Seq<u8>| says_tempo(bytes, micros(segments[k].bpm) as int),
            )
            &&& happens(
                track,
                0,
                Rank::Meta,
                |bytes: Seq<u8>| says_meter(bytes, segments[k].meter),
            )
        }),
{
    crate::laws::tempo::law_one_segment_is_in_force(segments, within.start, k);
    let whole = crate::smf::clip_events(within, segments, clip, options, tick, micros);
    lemma_parts(within, segments, clip, options, tick, micros);
    let opening = segments[k];
    let b = crate::smf::signature_events(0, micros(opening.bpm) as int, opening.meter);
    law_a_tempo_is_said(micros(opening.bpm) as int);
    law_a_meter_is_said(opening.meter);
    lemma_in_track(whole, b[0], |bytes: Seq<u8>| says_tempo(bytes, micros(opening.bpm) as int));
    lemma_in_track(whole, b[1], |bytes: Seq<u8>| says_meter(bytes, opening.meter));
}

proof fn lemma_change_events<N>(
    changes: Seq<(u64, N, Meter)>,
    tick: spec_fn(u64) -> u32,
    micros: spec_fn(N) -> u64,
    n: int,
)
    requires
        0 <= n < changes.len(),
    ensures
        ({
            let events = crate::smf::change_events(changes, tick, micros);
            let at = tick(changes[n].0) as int;
            &&& events.len() == 2 * changes.len()
            &&& events[2 * n].tick == at && events[2 * n].rank == Rank::Meta
            &&& says_tempo(events[2 * n].bytes, micros(changes[n].1) as int)
            &&& events[2 * n + 1].tick == at && events[2 * n + 1].rank == Rank::Meta
            &&& says_meter(events[2 * n + 1].bytes, changes[n].2)
        }),
    decreases changes.len(),
{
    let shorter = changes.drop_last();
    lemma_change_count(shorter, tick, micros);
    if n < changes.len() - 1 {
        lemma_change_events(shorter, tick, micros, n);
    } else {
        law_a_tempo_is_said(micros(changes[n].1) as int);
        law_a_meter_is_said(changes[n].2);
    }
}

proof fn lemma_change_count<N>(
    changes: Seq<(u64, N, Meter)>,
    tick: spec_fn(u64) -> u32,
    micros: spec_fn(N) -> u64,
)
    ensures
        crate::smf::change_events(changes, tick, micros).len() == 2 * changes.len(),
    decreases changes.len(),
{
    if changes.len() > 0 {
        lemma_change_count(changes.drop_last(), tick, micros);
    }
}

/// A clip carries every tempo and meter change inside its selection, at its tick.
pub proof fn law_a_clip_carries_every_change<N>(
    within: Selection,
    segments: Seq<Segment<N>>,
    clip: Clip,
    options: SmfOptions,
    tick: spec_fn(u64) -> u32,
    micros: spec_fn(N) -> u64,
    k: int,
)
    requires
        0 <= k < segments.len(),
        within.start < segments[k].frame < within.end,
    ensures
        ({
            let track = crate::smf::in_track_order(
                crate::smf::clip_events(within, segments, clip, options, tick, micros),
            );
            let at = tick(segments[k].frame) as int;
            &&& happens(
                track,
                at,
                Rank::Meta,
                |bytes: Seq<u8>| says_tempo(bytes, micros(segments[k].bpm) as int),
            )
            &&& happens(
                track,
                at,
                Rank::Meta,
                |bytes: Seq<u8>| says_meter(bytes, segments[k].meter),
            )
        }),
{
    let whole = crate::smf::clip_events(within, segments, clip, options, tick, micros);
    lemma_parts(within, segments, clip, options, tick, micros);
    let changes = crate::tempo::changes_between(segments, within.start, within.end);
    let n = crate::laws::tempo::law_a_change_inside_is_listed(
        segments,
        within.start,
        within.end,
        k,
    );
    lemma_change_events(changes, tick, micros, n);
    let c = crate::smf::change_events(changes, tick, micros);
    lemma_in_track(whole, c[2 * n], |bytes: Seq<u8>|
        says_tempo(bytes, micros(segments[k].bpm) as int));
    lemma_in_track(whole, c[2 * n + 1], |bytes: Seq<u8>| says_meter(bytes, segments[k].meter));
}

/// Every note struck inside the selection is in the track, at its strike and at its release.
pub proof fn law_a_clip_plays_every_note<N>(
    within: Selection,
    segments: Seq<Segment<N>>,
    clip: Clip,
    options: SmfOptions,
    tick: spec_fn(u64) -> u32,
    micros: spec_fn(N) -> u64,
    n: int,
)
    requires
        0 <= n < clip.notes@.len(),
        within.start <= clip.notes@[n].start < within.end,
    ensures
        ({
            let track = crate::smf::in_track_order(
                crate::smf::clip_events(within, segments, clip, options, tick, micros),
            );
            let note = clip.notes@[n];
            let key_up = match note.end {
                Some(stop) if options.let_ring || stop <= within.end => later(stop, note.start),
                _ => within.end,
            };
            &&& happens(
                track,
                tick(note.start) as int,
                Rank::NoteOn,
                |bytes: Seq<u8>|
                    bytes.len() == 3 && bytes[0] == 0x90 + note.channel % 16 && bytes[1]
                        == note.key % 128 && 1 <= bytes[2] <= 127,
            )
            &&& happens(
                track,
                larger(tick(key_up) as int, tick(note.start) + 1),
                Rank::NoteOff,
                |bytes: Seq<u8>|
                    bytes.len() == 3 && bytes[0] == 0x80 + note.channel % 16 && bytes[1]
                        == note.key % 128,
            )
        }),
{
    let whole = crate::smf::clip_events(within, segments, clip, options, tick, micros);
    lemma_parts(within, segments, clip, options, tick, micros);
    let note = clip.notes@[n];
    let h = crate::smf::note_events(clip.notes@, within, options.let_ring, tick);
    let i = lemma_note(clip.notes@, within, options.let_ring, tick, n);
    lemma_in_track(whole, h[i], |bytes: Seq<u8>|
        bytes.len() == 3 && bytes[0] == 0x90 + note.channel % 16 && bytes[1] == note.key % 128
            && 1 <= bytes[2] <= 127);
    lemma_in_track(whole, h[i + 1], |bytes: Seq<u8>|
        bytes.len() == 3 && bytes[0] == 0x80 + note.channel % 16 && bytes[1] == note.key % 128);
}

/// Where the two messages of a note stand.
proof fn lemma_note(
    notes: Seq<Note>,
    within: Selection,
    let_ring: bool,
    tick: spec_fn(u64) -> u32,
    n: int,
) -> (i: int)
    requires
        0 <= n < notes.len(),
        within.start <= notes[n].start < within.end,
    ensures
        ({
            let note = notes[n];
            let events = crate::smf::note_events(notes, within, let_ring, tick);
            let key_up = match note.end {
                Some(stop) if let_ring || stop <= within.end => later(stop, note.start),
                _ => within.end,
            };
            &&& 0 <= i && i + 1 < events.len()
            &&& events[i].tick == tick(note.start) && events[i].rank == Rank::NoteOn
            &&& events[i].bytes.len() == 3 && events[i].bytes[0] == 0x90 + note.channel % 16
            &&& events[i].bytes[1] == note.key % 128 && 1 <= events[i].bytes[2] <= 127
            &&& events[i + 1].tick == larger(tick(key_up) as int, tick(note.start) + 1)
            &&& events[i + 1].rank == Rank::NoteOff
            &&& events[i + 1].bytes.len() == 3 && events[i + 1].bytes[0] == 0x80 + note.channel
                % 16
            &&& events[i + 1].bytes[1] == note.key % 128
        }),
    decreases notes.len(),
{
    if n < notes.len() - 1 {
        lemma_note(notes.drop_last(), within, let_ring, tick, n)
    } else {
        crate::smf::note_events(notes.drop_last(), within, let_ring, tick).len() as int
    }
}

proof fn lemma_control_event(
    controls: Seq<ControlChange>,
    within: Selection,
    tick: spec_fn(u64) -> u32,
    n: int,
) -> (i: int)
    requires
        0 <= n < controls.len(),
        within.start <= controls[n].frame < within.end,
    ensures
        ({
            let events = crate::smf::control_events(controls, within, tick);
            let control = controls[n];
            &&& 0 <= i < events.len()
            &&& events[i].tick == tick(control.frame) && events[i].rank == Rank::Control
            &&& events[i].bytes.len() == 3 && events[i].bytes[0] == 0xB0 + control.channel % 16
            &&& events[i].bytes[1] == control.controller % 128
            &&& events[i].bytes[2] == control.value % 128
        }),
    decreases controls.len(),
{
    if n < controls.len() - 1 {
        lemma_control_event(controls.drop_last(), within, tick, n)
    } else {
        crate::smf::control_events(controls.drop_last(), within, tick).len() as int
    }
}

/// Every controller change inside the selection is in the track, at its tick.
pub proof fn law_a_clip_carries_every_controller_change<N>(
    within: Selection,
    segments: Seq<Segment<N>>,
    clip: Clip,
    options: SmfOptions,
    tick: spec_fn(u64) -> u32,
    micros: spec_fn(N) -> u64,
    n: int,
)
    requires
        0 <= n < clip.controls@.len(),
        within.start <= clip.controls@[n].frame < within.end,
    ensures
        ({
            let control = clip.controls@[n];
            happens(
                crate::smf::in_track_order(
                    crate::smf::clip_events(within, segments, clip, options, tick, micros),
                ),
                tick(control.frame) as int,
                Rank::Control,
                |bytes: Seq<u8>|
                    bytes.len() == 3 && bytes[0] == 0xB0 + control.channel % 16 && bytes[1]
                        == control.controller % 128 && bytes[2] == control.value % 128,
            )
        }),
{
    let whole = crate::smf::clip_events(within, segments, clip, options, tick, micros);
    lemma_parts(within, segments, clip, options, tick, micros);
    let control = clip.controls@[n];
    let i = lemma_control_event(clip.controls@, within, tick, n);
    let f = crate::smf::control_events(clip.controls@, within, tick);
    lemma_in_track(whole, f[i], |bytes: Seq<u8>|
        bytes.len() == 3 && bytes[0] == 0xB0 + control.channel % 16 && bytes[1]
            == control.controller % 128 && bytes[2] == control.value % 128);
}

/// What a pitch bend message says: its channel, and its value in two halves, at most 14 bits.
pub open spec fn says_bend(bytes: Seq<u8>, channel: int, value: int) -> bool {
    &&& bytes.len() == 3
    &&& bytes[0] == 0xE0 + channel
    &&& bytes[1] < 128 && bytes[2] < 128
    &&& bytes[1] + 128 * bytes[2] == if value > 16383 {
        16383
    } else {
        value
    }
}

proof fn lemma_bend_event(
    bends: Seq<PitchBend>,
    within: Selection,
    tick: spec_fn(u64) -> u32,
    n: int,
) -> (i: int)
    requires
        0 <= n < bends.len(),
        within.start <= bends[n].frame < within.end,
    ensures
        ({
            let events = crate::smf::bend_events(bends, within, tick);
            let bend = bends[n];
            &&& 0 <= i < events.len()
            &&& events[i].tick == tick(bend.frame) && events[i].rank == Rank::Control
            &&& says_bend(events[i].bytes, bend.channel as int % 16, bend.value as int)
        }),
    decreases bends.len(),
{
    if n < bends.len() - 1 {
        lemma_bend_event(bends.drop_last(), within, tick, n)
    } else {
        crate::smf::bend_events(bends.drop_last(), within, tick).len() as int
    }
}

/// Every pitch bend inside the selection is in the track, at its tick.
pub proof fn law_a_clip_carries_every_bend<N>(
    within: Selection,
    segments: Seq<Segment<N>>,
    clip: Clip,
    options: SmfOptions,
    tick: spec_fn(u64) -> u32,
    micros: spec_fn(N) -> u64,
    n: int,
)
    requires
        0 <= n < clip.bends@.len(),
        within.start <= clip.bends@[n].frame < within.end,
    ensures
        ({
            let bend = clip.bends@[n];
            happens(
                crate::smf::in_track_order(
                    crate::smf::clip_events(within, segments, clip, options, tick, micros),
                ),
                tick(bend.frame) as int,
                Rank::Control,
                |bytes: Seq<u8>| says_bend(bytes, bend.channel as int % 16, bend.value as int),
            )
        }),
{
    let whole = crate::smf::clip_events(within, segments, clip, options, tick, micros);
    lemma_parts(within, segments, clip, options, tick, micros);
    let bend = clip.bends@[n];
    let i = lemma_bend_event(clip.bends@, within, tick, n);
    let g = crate::smf::bend_events(clip.bends@, within, tick);
    lemma_in_track(whole, g[i], |bytes: Seq<u8>|
        says_bend(bytes, bend.channel as int % 16, bend.value as int));
}

proof fn lemma_control_in_snapshot(controls: Seq<ControlChange>, start: u64, n: nat, k: int) -> (i:
    int)
    requires
        0 <= k < n <= 2048,
        crate::smf::control_before(controls, start, k / 128, k % 128) is Some,
    ensures
        ({
            let events = crate::smf::control_snapshot(controls, start, n);
            &&& 0 <= i < events.len()
            &&& events[i].tick == 0 && events[i].rank == Rank::Control
            &&& events[i].bytes == seq![
                (0xB0 + k / 128) as u8,
                (k % 128) as u8,
                crate::smf::control_before(controls, start, k / 128, k % 128)->0,
            ]
        }),
    decreases n,
{
    if k < n - 1 {
        lemma_control_in_snapshot(controls, start, (n - 1) as nat, k)
    } else {
        crate::smf::control_snapshot(controls, start, k as nat).len() as int
    }
}

/// A clip opens with the controllers as they stood where its selection starts: each that was
/// changed before, at the value of its last change.
pub proof fn law_a_clip_opens_with_its_controllers<N>(
    within: Selection,
    segments: Seq<Segment<N>>,
    clip: Clip,
    options: SmfOptions,
    tick: spec_fn(u64) -> u32,
    micros: spec_fn(N) -> u64,
    last: int,
)
    requires
        0 <= last < clip.controls@.len(),
        clip.controls@[last].frame < within.start,
        forall|i: int|
            last < i < clip.controls@.len() ==> (#[trigger] clip.controls@[i]).frame
                >= within.start || clip.controls@[i].channel % 16 != clip.controls@[last].channel
                % 16 || clip.controls@[i].controller % 128 != clip.controls@[last].controller
                % 128,
    ensures
        ({
            let control = clip.controls@[last];
            happens(
                crate::smf::in_track_order(
                    crate::smf::clip_events(within, segments, clip, options, tick, micros),
                ),
                0,
                Rank::Control,
                |bytes: Seq<u8>|
                    bytes.len() == 3 && bytes[0] == 0xB0 + control.channel % 16 && bytes[1]
                        == control.controller % 128 && bytes[2] == control.value % 128,
            )
        }),
{
    let whole = crate::smf::clip_events(within, segments, clip, options, tick, micros);
    lemma_parts(within, segments, clip, options, tick, micros);
    let control = clip.controls@[last];
    let channel = control.channel as int % 16;
    let controller = control.controller as int % 128;
    let k = channel * 128 + controller;
    assert(k / 128 == channel && k % 128 == controller);
    crate::smf::law_snapshot_is_the_state_in_force(
        clip.controls@,
        within.start,
        channel,
        controller,
        last,
    );
    let i = lemma_control_in_snapshot(clip.controls@, within.start, 2048, k);
    let d = crate::smf::control_snapshot(clip.controls@, within.start, 2048);
    lemma_in_track(whole, d[i], |bytes: Seq<u8>|
        bytes.len() == 3 && bytes[0] == 0xB0 + control.channel % 16 && bytes[1]
            == control.controller % 128 && bytes[2] == control.value % 128);
}

/// The opening controllers are only those that were changed before the selection, one message each.
pub proof fn law_only_changed_controllers_open_a_clip(
    controls: Seq<ControlChange>,
    start: u64,
    n: nat,
    j: int,
) -> (at: int)
    requires
        n <= 2048,
        0 <= j < crate::smf::control_snapshot(controls, start, n).len(),
    ensures
        ({
            let events = crate::smf::control_snapshot(controls, start, n);
            &&& 0 <= at < controls.len()
            &&& controls[at].frame < start
            &&& events[j].tick == 0 && events[j].rank == Rank::Control
            &&& events[j].bytes.len() == 3
            &&& events[j].bytes[0] == 0xB0 + controls[at].channel % 16
            &&& events[j].bytes[1] == controls[at].controller % 128
            &&& events[j].bytes[2] == controls[at].value % 128
            &&& forall|i: int|
                0 <= i < j ==> (#[trigger] events[i]).bytes[0] < events[j].bytes[0] || (
                events[i].bytes[0] == events[j].bytes[0] && events[i].bytes[1]
                    < events[j].bytes[1])
            &&& 128 * (events[j].bytes[0] - 0xB0) + events[j].bytes[1] < n
        }),
    decreases n,
{
    let k = n - 1;
    let earlier = crate::smf::control_snapshot(controls, start, k as nat);
    let events = crate::smf::control_snapshot(controls, start, n);
    if j < earlier.len() {
        let at = law_only_changed_controllers_open_a_clip(controls, start, k as nat, j);
        assert(events[j] == earlier[j]);
        assert forall|i: int| 0 <= i < j implies (#[trigger] events[i]).bytes[0]
            < events[j].bytes[0] || (events[i].bytes[0] == events[j].bytes[0]
            && events[i].bytes[1] < events[j].bytes[1]) by {
            assert(events[i] == earlier[i]);
        }
        at
    } else {
        assert forall|i: int| 0 <= i < j implies (#[trigger] events[i]).bytes[0]
            < events[j].bytes[0] || (events[i].bytes[0] == events[j].bytes[0]
            && events[i].bytes[1] < events[j].bytes[1]) by {
            assert(events[i] == earlier[i]);
            let _ = law_only_changed_controllers_open_a_clip(controls, start, k as nat, i);
        }
        lemma_control_before(controls, start, k / 128, k % 128)
    }
}

proof fn lemma_control_before(
    controls: Seq<ControlChange>,
    start: u64,
    channel: int,
    controller: int,
) -> (at: int)
    requires
        crate::smf::control_before(controls, start, channel, controller) is Some,
    ensures
        0 <= at < controls.len(),
        controls[at].frame < start,
        controls[at].channel % 16 == channel,
        controls[at].controller % 128 == controller,
        crate::smf::control_before(controls, start, channel, controller)->0 == controls[at].value
            % 128,
    decreases controls.len(),
{
    let last = controls.last();
    if last.frame < start && last.channel % 16 == channel && last.controller % 128 == controller {
        controls.len() - 1
    } else {
        lemma_control_before(controls.drop_last(), start, channel, controller)
    }
}

proof fn lemma_bend_before(bends: Seq<PitchBend>, start: u64, channel: int, last: int)
    requires
        0 <= last < bends.len(),
        bends[last].frame < start,
        bends[last].channel % 16 == channel,
        forall|i: int|
            last < i < bends.len() ==> (#[trigger] bends[i]).frame >= start || bends[i].channel % 16
                != channel,
    ensures
        crate::smf::bend_before(bends, start, channel) == Some(crate::smf::bend14(bends[last].value)),
    decreases bends.len(),
{
    if last < bends.len() - 1 {
        assert(bends[bends.len() - 1] == bends.last());
        lemma_bend_before(bends.drop_last(), start, channel, last);
    }
}

proof fn lemma_bend_in_snapshot(bends: Seq<PitchBend>, start: u64, n: nat, k: int) -> (i: int)
    requires
        0 <= k < n <= 16,
        crate::smf::bend_before(bends, start, k) is Some,
    ensures
        ({
            let events = crate::smf::bend_snapshot(bends, start, n);
            &&& 0 <= i < events.len()
            &&& events[i].tick == 0 && events[i].rank == Rank::Control
            &&& events[i].bytes == crate::smf::bend_bytes(
                k,
                crate::smf::bend_before(bends, start, k)->0,
            )
        }),
    decreases n,
{
    if k < n - 1 {
        lemma_bend_in_snapshot(bends, start, (n - 1) as nat, k)
    } else {
        crate::smf::bend_snapshot(bends, start, k as nat).len() as int
    }
}

/// A clip opens with the pitch bends as they stood where its selection starts: each channel that
/// was bent before, at its last bend.
pub proof fn law_a_clip_opens_with_its_bends<N>(
    within: Selection,
    segments: Seq<Segment<N>>,
    clip: Clip,
    options: SmfOptions,
    tick: spec_fn(u64) -> u32,
    micros: spec_fn(N) -> u64,
    last: int,
)
    requires
        0 <= last < clip.bends@.len(),
        clip.bends@[last].frame < within.start,
        forall|i: int|
            last < i < clip.bends@.len() ==> (#[trigger] clip.bends@[i]).frame >= within.start
                || clip.bends@[i].channel % 16 != clip.bends@[last].channel % 16,
    ensures
        ({
            let bend = clip.bends@[last];
            happens(
                crate::smf::in_track_order(
                    crate::smf::clip_events(within, segments, clip, options, tick, micros),
                ),
                0,
                Rank::Control,
                |bytes: Seq<u8>| says_bend(bytes, bend.channel as int % 16, bend.value as int),
            )
        }),
{
    let whole = crate::smf::clip_events(within, segments, clip, options, tick, micros);
    lemma_parts(within, segments, clip, options, tick, micros);
    let bend = clip.bends@[last];
    let channel = bend.channel as int % 16;
    lemma_bend_before(clip.bends@, within.start, channel, last);
    let i = lemma_bend_in_snapshot(clip.bends@, within.start, 16, channel);
    let e = crate::smf::bend_snapshot(clip.bends@, within.start, 16);
    lemma_in_track(whole, e[i], |bytes: Seq<u8>|
        says_bend(bytes, bend.channel as int % 16, bend.value as int));
}

/// The opening bends are only of channels that were bent before the selection, one message each.
pub proof fn law_only_bent_channels_open_a_clip(
    bends: Seq<PitchBend>,
    start: u64,
    n: nat,
    j: int,
) -> (at: int)
    requires
        n <= 16,
        0 <= j < crate::smf::bend_snapshot(bends, start, n).len(),
    ensures
        ({
            let events = crate::smf::bend_snapshot(bends, start, n);
            &&& 0 <= at < bends.len()
            &&& bends[at].frame < start
            &&& events[j].tick == 0 && events[j].rank == Rank::Control
            &&& says_bend(events[j].bytes, bends[at].channel as int % 16, bends[at].value as int)
            &&& forall|i: int|
                0 <= i < j ==> (#[trigger] events[i]).bytes[0] < events[j].bytes[0]
            &&& events[j].bytes[0] - 0xE0 < n
        }),
    decreases n,
{
    let k = n - 1;
    let earlier = crate::smf::bend_snapshot(bends, start, k as nat);
    let events = crate::smf::bend_snapshot(bends, start, n);
    if j < earlier.len() {
        let at = law_only_bent_channels_open_a_clip(bends, start, k as nat, j);
        assert(events[j] == earlier[j]);
        assert forall|i: int| 0 <= i < j implies (#[trigger] events[i]).bytes[0]
            < events[j].bytes[0] by {
            assert(events[i] == earlier[i]);
        }
        at
    } else {
        assert forall|i: int| 0 <= i < j implies (#[trigger] events[i]).bytes[0]
            < events[j].bytes[0] by {
            assert(events[i] == earlier[i]);
            let _ = law_only_bent_channels_open_a_clip(bends, start, k as nat, i);
        }
        lemma_bend_found(bends, start, k)
    }
}

proof fn lemma_bend_found(bends: Seq<PitchBend>, start: u64, channel: int) -> (at: int)
    requires
        crate::smf::bend_before(bends, start, channel) is Some,
    ensures
        0 <= at < bends.len(),
        bends[at].frame < start,
        bends[at].channel % 16 == channel,
        crate::smf::bend_before(bends, start, channel)->0 == crate::smf::bend14(bends[at].value),
    decreases bends.len(),
{
    let last = bends.last();
    if last.frame < start && last.channel % 16 == channel {
        bends.len() - 1
    } else {
        lemma_bend_found(bends.drop_last(), start, channel)
    }
}

/// A clip is named where it has a name: the first 127 bytes of it, at its beginning.
pub proof fn law_a_clip_is_named(name: Seq<char>)
    ensures
        ({
            let events = crate::smf::name_events(name);
            let text = encode_utf8(name);
            &&& name.len() == 0 ==> events.len() == 0
            &&& name.len() > 0 ==> {
                &&& events.len() == 1
                &&& events[0].tick == 0 && events[0].rank == Rank::Meta
                &&& events[0].bytes[0] == 0xFF && events[0].bytes[1] == 3
                &&& events[0].bytes.len() == 3 + events[0].bytes[2]
                &&& events[0].bytes[2] == if text.len() > 127 {
                    127
                } else {
                    text.len() as int
                }
                &&& forall|i: int|
                    0 <= i < events[0].bytes[2] ==> #[trigger] events[0].bytes[3 + i] == text[i]
            }
        }),
{
}

/// A clip holds nothing else: its name, the opening tempo and meter, two messages for each change
/// and each note inside, one for each controller change and bend inside, and the opening state.
pub proof fn law_a_clip_holds_nothing_else<N>(
    within: Selection,
    segments: Seq<Segment<N>>,
    clip: Clip,
    options: SmfOptions,
    tick: spec_fn(u64) -> u32,
    micros: spec_fn(N) -> u64,
)
    ensures
        crate::smf::in_track_order(
            crate::smf::clip_events(within, segments, clip, options, tick, micros),
        ).len() == (if options.name@.len() == 0 {
            0int
        } else {
            1
        }) + 2 + 2 * segments.filter(
            |s: Segment<N>| within.start < s.frame < within.end,
        ).len() + crate::smf::control_snapshot(clip.controls@, within.start, 2048).len()
            + crate::smf::bend_snapshot(clip.bends@, within.start, 16).len()
            + clip.controls@.filter(
            |c: ControlChange| within.start <= c.frame < within.end,
        ).len() + clip.bends@.filter(|b: PitchBend| within.start <= b.frame < within.end).len() + 2
            * clip.notes@.filter(|note: Note| within.start <= note.start < within.end).len(),
{
    let whole = crate::smf::clip_events(within, segments, clip, options, tick, micros);
    lemma_parts(within, segments, clip, options, tick, micros);
    crate::smf::law_track_order(whole);
    lemma_change_count(
        crate::tempo::changes_between(segments, within.start, within.end),
        tick,
        micros,
    );
    crate::laws::tempo::law_only_changes_inside_are_listed(segments, within.start, within.end);
    lemma_control_count(clip.controls@, within, tick);
    lemma_bend_count(clip.bends@, within, tick);
    law_only_notes_struck_inside_are_exported(clip.notes@, within, options.let_ring, tick);
}

proof fn lemma_control_count(
    controls: Seq<ControlChange>,
    within: Selection,
    tick: spec_fn(u64) -> u32,
)
    ensures
        crate::smf::control_events(controls, within, tick).len() == controls.filter(
            |c: ControlChange| within.start <= c.frame < within.end,
        ).len(),
    decreases controls.len(),
{
    reveal(Seq::filter);
    if controls.len() > 0 {
        lemma_control_count(controls.drop_last(), within, tick);
    }
}

proof fn lemma_bend_count(bends: Seq<PitchBend>, within: Selection, tick: spec_fn(u64) -> u32)
    ensures
        crate::smf::bend_events(bends, within, tick).len() == bends.filter(
            |b: PitchBend| within.start <= b.frame < within.end,
        ).len(),
    decreases bends.len(),
{
    reveal(Seq::filter);
    if bends.len() > 0 {
        lemma_bend_count(bends.drop_last(), within, tick);
    }
}

/// On one tick the state comes before what it applies to: tempo and meter, then controllers, then
/// releases, then strikes. No event comes before one of an earlier tick.
pub proof fn law_state_comes_before_what_it_applies_to(events: Seq<Placed>, i: int, j: int)
    requires
        0 <= i < j < crate::smf::in_track_order(events).len(),
    ensures
        ({
            let a = crate::smf::in_track_order(events)[i];
            let b = crate::smf::in_track_order(events)[j];
            &&& a.tick <= b.tick
            &&& a.tick == b.tick && a.rank != b.rank ==> {
                &&& b.rank != Rank::Meta
                &&& a.rank != Rank::NoteOn
                &&& b.rank == Rank::Control ==> a.rank == Rank::Meta
            }
        }),
{
    crate::smf::law_track_order(events);
    let track = crate::smf::in_track_order(events);
    assert(crate::smf::no_later(track[i], track[j]));
}

/// A file begins with its header: one track of type 0, at its resolution, and how long it is.
pub proof fn law_a_midi_file_says_what_it_is(ppq: int, track: Seq<u8>)
    requires
        0 <= ppq < 0x1_0000,
        track.len() < 0x1_0000_0000,
    ensures
        ({
            let file = crate::smf::file_bytes(ppq, track);
            &&& file.len() == 22 + track.len()
            &&& file.subrange(0, 14) == seq![
                0x4Du8,
                0x54,
                0x68,
                0x64,
                0,
                0,
                0,
                6,
                0,
                0,
                0,
                1,
                (ppq / 256) as u8,
                (ppq % 256) as u8,
            ]
            &&& file.subrange(14, 18) == seq![0x4Du8, 0x54, 0x72, 0x6B]
            &&& file[21] + 0x100 * file[20] + 0x1_0000 * file[19] + 0x100_0000 * file[18]
                == track.len()
            &&& file.skip(22) == track
        }),
{
    crate::smf::law_track_length_covers_the_rest(ppq, track);
    lemma_file_front(ppq, track);
}

proof fn lemma_file_front(ppq: int, track: Seq<u8>)
    requires
        0 <= ppq < 0x1_0000,
    ensures
        ({
            let file = crate::smf::file_bytes(ppq, track);
            &&& file.subrange(0, 14) == seq![
                0x4Du8,
                0x54,
                0x68,
                0x64,
                0,
                0,
                0,
                6,
                0,
                0,
                0,
                1,
                (ppq / 256) as u8,
                (ppq % 256) as u8,
            ]
            &&& file.subrange(14, 18) == seq![0x4Du8, 0x54, 0x72, 0x6B]
        }),
{
    let file = crate::smf::file_bytes(ppq, track);
    let a = seq![0x4Du8, 0x54, 0x68, 0x64];
    let b = crate::bytes::be32(6);
    let c = crate::bytes::be16(0);
    let d = crate::bytes::be16(1);
    let e = crate::bytes::be16(ppq);
    let f = seq![0x4Du8, 0x54, 0x72, 0x6B];
    let rest = crate::bytes::be32(track.len() as int % 0x1_0000_0000) + track;
    assert(file =~= a + b + c + d + e + f + rest);
    assert(b =~= seq![0u8, 0, 0, 6]);
    assert(c =~= seq![0u8, 0]);
    assert(d =~= seq![0u8, 1]);
    assert(e =~= seq![(ppq / 256) as u8, (ppq % 256) as u8]);
    assert(file.subrange(0, 14) =~= a + b + c + d + e);
    assert(file.subrange(14, 18) =~= f);
}

/// A quantity takes as few bytes as it can, at most four of them, and says on every byte but the
/// last that it goes on. What they say in the seven bits that are left is the quantity.
pub proof fn law_a_quantity_is_as_short_as_it_can_be(value: nat)
    requires
        value < 0x1000_0000,
    ensures
        ({
            let bytes = crate::smf::varint(value);
            &&& 1 <= bytes.len() <= 4
            &&& bytes.last() < 128
            &&& forall|i: int| 0 <= i < bytes.len() - 1 ==> #[trigger] bytes[i] >= 128
            &&& bytes.len() > 1 ==> bytes[0] > 128
            &&& bytes.len() == 1 ==> value == bytes[0]
            &&& bytes.len() == 2 ==> value == 128 * (bytes[0] - 128) + bytes[1]
            &&& bytes.len() == 3 ==> value == 16384 * (bytes[0] - 128) + 128 * (bytes[1] - 128)
                + bytes[2]
            &&& bytes.len() == 4 ==> value == 2097152 * (bytes[0] - 128) + 16384 * (bytes[1] - 128)
                + 128 * (bytes[2] - 128) + bytes[3]
        }),
{
    reveal_with_fuel(crate::smf::continued, 5);
}

/// In a track each event stands behind its distance from the one before it, or from the beginning,
/// in 28 bits.
pub proof fn law_an_event_stands_behind_its_distance(events: Seq<Placed>, next: Placed)
    ensures
        crate::smf::delta_bytes(Seq::empty()) == Seq::<u8>::empty(),
        crate::smf::delta_bytes(events.push(next)) == crate::smf::delta_bytes(events)
            + crate::smf::varint(
            ((next.tick - if events.len() == 0 {
                0
            } else {
                events[events.len() - 1].tick
            }) % 0x1000_0000) as nat,
        ) + next.bytes,
{
    assert(events.push(next).drop_last() =~= events);
}

/// A track ends behind its last event, as far as it has to last, and never before it.
pub proof fn law_a_track_ends_where_it_has_to(events: Seq<Placed>, length: int)
    ensures
        ({
            let last = if events.len() == 0 {
                0
            } else {
                events[events.len() - 1].tick
            };
            let track = crate::smf::track_bytes(events, length);
            &&& length > last ==> track == crate::smf::delta_bytes(events) + crate::smf::varint(
                ((length - last) % 0x1000_0000) as nat,
            ) + seq![0xFFu8, 0x2F, 0]
            &&& length <= last ==> track == crate::smf::delta_bytes(events) + seq![
                0u8,
                0xFF,
                0x2F,
                0,
            ]
        }),
{
    let said = crate::smf::varint(0);
    assert(said =~= seq![0u8]);
    assert(said + seq![0xFFu8, 0x2F, 0] =~= seq![0u8, 0xFF, 0x2F, 0]);
    let front = crate::smf::delta_bytes(events);
    assert(front + said + seq![0xFFu8, 0x2F, 0] =~= front + (said + seq![0xFFu8, 0x2F, 0]));
}

/// Putting a clip in order keeps every event, and events that share a tick and a rank in the order
/// that they came in.
pub proof fn law_events_alike_stay_in_order(events: Seq<Placed>, tick: int, rank: Rank)
    ensures
        crate::smf::in_track_order(events).to_multiset() == events.to_multiset(),
        crate::smf::in_track_order(events).filter(|e: Placed| e.tick == tick && e.rank == rank)
            == events.filter(|e: Placed| e.tick == tick && e.rank == rank),
{
    crate::smf::law_track_order(events);
    crate::smf::law_track_order_is_stable(events, tick, rank);
    lemma_alike(events, tick, rank);
    lemma_alike(crate::smf::in_track_order(events), tick, rank);
}

proof fn lemma_alike(events: Seq<Placed>, tick: int, rank: Rank)
    ensures
        crate::smf::sharing(events, tick, rank) == events.filter(
            |e: Placed| e.tick == tick && e.rank == rank,
        ),
    decreases events.len(),
{
    reveal(Seq::filter);
    if events.len() > 0 {
        lemma_alike(events.drop_last(), tick, rank);
    }
}

/// What is staged of the lane for a clip: the controller changes and the bends before its end, as
/// they came, by the status that each arrived with.
pub proof fn law_the_lane_is_staged_as_it_came(events: Seq<crate::midi::Event>, end: u64)
    ensures
        crate::smf::staged_controls(events, end) == events.filter(
            |e: crate::midi::Event| 0xB0 <= e.status < 0xC0 && e.frame < end,
        ).map_values(
            |e: crate::midi::Event|
                ControlChange {
                    frame: e.frame,
                    channel: (e.status - 0xB0) as u8,
                    controller: e.data1,
                    value: e.data2,
                },
        ),
    decreases events.len(),
{
    reveal(Seq::filter);
    let kept = |e: crate::midi::Event| 0xB0 <= e.status < 0xC0 && e.frame < end;
    let read = |e: crate::midi::Event|
        ControlChange {
            frame: e.frame,
            channel: (e.status - 0xB0) as u8,
            controller: e.data1,
            value: e.data2,
        };
    if events.len() > 0 {
        law_the_lane_is_staged_as_it_came(events.drop_last(), end);
        assert(crate::smf::staged_controls(events, end) =~= events.filter(kept).map_values(read));
    } else {
        assert(crate::smf::staged_controls(events, end) =~= events.filter(kept).map_values(read));
    }
}

/// The bends of the lane are staged as they came, each with its 14-bit value.
pub proof fn law_bends_are_staged_as_they_came(events: Seq<crate::midi::Event>, end: u64)
    ensures
        crate::smf::staged_bends(events, end) == events.filter(
            |e: crate::midi::Event| 0xE0 <= e.status < 0xF0 && e.frame < end,
        ).map_values(
            |e: crate::midi::Event|
                PitchBend {
                    frame: e.frame,
                    channel: (e.status - 0xE0) as u8,
                    value: (e.data1 as u16) | ((e.data2 as u16) << 7),
                },
        ),
    decreases events.len(),
{
    reveal(Seq::filter);
    let kept = |e: crate::midi::Event| 0xE0 <= e.status < 0xF0 && e.frame < end;
    let read = |e: crate::midi::Event|
        PitchBend {
            frame: e.frame,
            channel: (e.status - 0xE0) as u8,
            value: (e.data1 as u16) | ((e.data2 as u16) << 7),
        };
    if events.len() > 0 {
        law_bends_are_staged_as_they_came(events.drop_last(), end);
        let last = events.last();
        crate::laws::bytes::law_halves_are_joined(last.data1, last.data2);
        assert(crate::smf::staged_bends(events, end) =~= events.filter(kept).map_values(read));
    } else {
        assert(crate::smf::staged_bends(events, end) =~= events.filter(kept).map_values(read));
    }
}

/// A note of the lane is staged unchanged.
pub proof fn law_a_note_is_staged_unchanged(note: crate::midi::Note)
    ensures
        ({
            let staged = crate::smf::staged_note(note);
            &&& staged.start == note.start && staged.end == note.end
            &&& staged.channel == note.channel && staged.key == note.key
            &&& staged.on_velocity == note.on_velocity
            &&& staged.off_velocity == note.off_velocity
        }),
{
}

} // verus!
