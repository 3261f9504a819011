//! Standard MIDI File export.
//!
//! The byte format is the easy half. The half worth the care is what a selection of a continuous
//! MIDI stream means, because three things straddle its edges: notes crossing the boundaries, the
//! controller state in force where it begins, and the tempo.
//!
//! Where a frame falls on the tick axis, and how many microseconds a tempo gives a quarter note,
//! is asked of the caller.
use crate::ask::ask;
use crate::bytes::{join_halves, push_all, push_be16, push_be24, push_be32};
use crate::grid::Selection;
use crate::midi::MidiRing;
use crate::tempo::{Meter, TempoMap};
use vstd::prelude::*;
use vstd::utf8::*;

verus! {

/// Ticks per quarter note. 960 divides by 2, 3, 4, 5 and 8, so triplets and quintuplets land on
/// whole ticks rather than being rounded into a groove nobody played.
pub const DEFAULT_PPQ: u16 = 960;

#[derive(Clone, Copy, Debug)]
pub struct Note {
    pub start: u64,
    /// `None` for a note still held when the buffer was read.
    pub end: Option<u64>,
    pub channel: u8,
    pub key: u8,
    pub on_velocity: u8,
    pub off_velocity: u8,
}

#[derive(Clone, Copy, Debug)]
pub struct ControlChange {
    pub frame: u64,
    pub channel: u8,
    pub controller: u8,
    pub value: u8,
}

#[derive(Clone, Copy, Debug)]
pub struct PitchBend {
    pub frame: u64,
    pub channel: u8,
    /// 14-bit, centred at 8192.
    pub value: u16,
}

/// Everything captured on the MIDI lane, unclipped. The exporter does the clipping.
#[derive(Clone, Copy, Debug)]
pub struct Clip<'a> {
    pub notes: &'a [Note],
    pub controls: &'a [ControlChange],
    pub bends: &'a [PitchBend],
}

impl<'a> Default for Clip<'a> {
    fn default() -> (clip: Clip<'a>)
        ensures
            clip.notes@.len() == 0,
            clip.controls@.len() == 0,
            clip.bends@.len() == 0,
    {
        Clip { notes: &[], controls: &[], bends: &[] }
    }
}

#[derive(Clone, Debug)]
pub struct SmfOptions {
    pub ppq: u16,
    /// Let a note that starts inside the selection ring past its end rather than being cut at it.
    /// Off by default: a rhythmic loop wants clean edges.
    pub let_ring: bool,
    pub name: String,
}

impl Default for SmfOptions {
    fn default() -> (options: SmfOptions)
        ensures
            options.ppq == 960,
            !options.let_ring,
            options.name@ == "Waveroll"@,
    {
        SmfOptions { ppq: DEFAULT_PPQ, let_ring: false, name: "Waveroll".to_owned() }
    }
}

/// The bytes of a variable-length quantity before its last one: seven bits each, high bit set.
pub open spec fn continued(value: nat) -> Seq<u8>
    decreases value,
{
    if value < 128 {
        seq![(128 + value) as u8]
    } else {
        continued(value / 128).push((128 + value % 128) as u8)
    }
}

/// Variable-length quantity: seven bits per byte, high bit set on every byte but the last.
pub open spec fn varint(value: nat) -> Seq<u8> {
    if value < 128 {
        seq![value as u8]
    } else {
        continued(value / 128).push((value % 128) as u8)
    }
}

/// Reads a variable-length quantity that begins at `at`: what it says, on top of what was read
/// before it, and where it ends.
pub open spec fn read_varint(bytes: Seq<u8>, at: int, before: nat) -> (nat, int)
    decreases bytes.len() - at,
{
    if at < 0 || at >= bytes.len() {
        (before, at)
    } else if bytes[at] >= 128 {
        read_varint(bytes, at + 1, before * 128 + (bytes[at] - 128) as nat)
    } else {
        (before * 128 + bytes[at] as nat, at + 1)
    }
}

/// Writes a variable-length quantity. It is 28 bits wide.
pub fn write_varint(out: &mut Vec<u8>, value: u32)
    ensures
        final(out)@ == old(out)@ + varint((value % 0x1000_0000) as nat),
{
    let low: u32 = value % 0x1000_0000;
    proof {
        reveal_with_fuel(continued, 4);
    }
    if low >= 0x20_0000 {
        out.push((128 + low / 0x20_0000) as u8);
    }
    if low >= 0x4000 {
        out.push((128 + low / 0x4000 % 128) as u8);
    }
    if low >= 0x80 {
        out.push((128 + low / 0x80 % 128) as u8);
    }
    out.push((low % 128) as u8);
    assert(out@ =~= old(out)@ + varint(low as nat));
}

/// A tempo, as microseconds per quarter note in three bytes: clamped, so that a nonsense reading
/// does not wrap into a fast one.
pub open spec fn tempo_bytes(micros: int) -> Seq<u8> {
    seq![0xFFu8, 0x51, 0x03] + crate::bytes::be24(
        if micros < 1 {
            1
        } else if micros > 0xFF_FFFF {
            0xFF_FFFF
        } else {
            micros
        },
    )
}

pub fn tempo_meta(micros: u64) -> (bytes: Vec<u8>)
    ensures
        bytes@ == tempo_bytes(micros as int),
{
    let clamped: u32 = if micros < 1 {
        1
    } else if micros > 0xFF_FFFF {
        0xFF_FFFF
    } else {
        micros as u32
    };
    let mut bytes: Vec<u8> = Vec::new();
    bytes.push(0xFF);
    bytes.push(0x51);
    bytes.push(0x03);
    push_be24(&mut bytes, clamped);
    assert(bytes@ =~= tempo_bytes(micros as int));
    bytes
}

/// The whole number nearest to the binary logarithm of `den`, from `k` on and no more than seven:
/// `k` is nearer than `k + 1` where `den` squared stays below two to the power of `2 k + 1`.
pub open spec fn nearest_log2(den: int, k: nat) -> nat
    decreases 7 - k,
{
    if k >= 7 || den * den < vstd::arithmetic::power2::pow2(2 * k + 1) {
        k
    } else {
        nearest_log2(den, k + 1)
    }
}

/// A meter. The denominator is stored as its binary logarithm; one that is not a power of two is
/// rounded to one rather than written as garbage. A click has 24 clocks, a quarter note 8
/// thirty-seconds.
pub open spec fn meter_bytes(meter: Meter) -> Seq<u8> {
    let num = if meter.num < 1 {
        1
    } else if meter.num > 255 {
        255
    } else {
        meter.num as int
    };
    seq![0xFFu8, 0x58, 0x04, num as u8, nearest_log2(meter.den as int, 0) as u8, 24, 8]
}

pub fn meter_meta(meter: Meter) -> (bytes: Vec<u8>)
    ensures
        bytes@ == meter_bytes(meter),
{
    let square: u64 = {
        assert(meter.den * meter.den <= u64::MAX) by (nonlinear_arith);
        meter.den as u64 * meter.den as u64
    };
    let mut k: u8 = 0;
    let mut limit: u64 = 2;
    proof {
        vstd::arithmetic::power2::lemma2_to64();
    }
    while k < 7 && square >= limit
        invariant
            k <= 7,
            square == meter.den * meter.den,
            limit == vstd::arithmetic::power2::pow2((2 * k + 1) as nat),
            limit <= 0x8000,
            nearest_log2(meter.den as int, 0) == nearest_log2(meter.den as int, k as nat),
        decreases 7 - k,
    {
        proof {
            vstd::arithmetic::power2::lemma2_to64();
            vstd::arithmetic::power2::lemma_pow2_unfold((2 * k + 3) as nat);
            vstd::arithmetic::power2::lemma_pow2_unfold((2 * k + 2) as nat);
            if 2 * k + 3 < 15 {
                vstd::arithmetic::power2::lemma_pow2_strictly_increases((2 * k + 3) as nat, 15);
            }
        }
        k = k + 1;
        limit = limit * 4;
    }
    let num: u8 = if meter.num < 1 {
        1
    } else if meter.num > 255 {
        255
    } else {
        meter.num as u8
    };
    let mut bytes: Vec<u8> = Vec::new();
    bytes.push(0xFF);
    bytes.push(0x58);
    bytes.push(0x04);
    bytes.push(num);
    bytes.push(k);
    bytes.push(24);
    bytes.push(8);
    assert(bytes@ =~= meter_bytes(meter));
    bytes
}

/// Order among events landing on the same tick.
///
/// Metadata first so that a tempo applies to what follows it; the controller snapshot next so that
/// notes sound with the state they were played under; note-offs before note-ons so that a repeated
/// key is released before it is struck again.
#[derive(Clone, Copy, PartialEq, Eq, Structural)]
pub enum Rank {
    Meta,
    Control,
    NoteOff,
    NoteOn,
}

impl Rank {
    pub open spec fn spec_order(self) -> int {
        match self {
            Rank::Meta => 0,
            Rank::Control => 1,
            Rank::NoteOff => 2,
            Rank::NoteOn => 3,
        }
    }

    fn order(self) -> (order: u8)
        ensures
            order == self.spec_order(),
    {
        match self {
            Rank::Meta => 0,
            Rank::Control => 1,
            Rank::NoteOff => 2,
            Rank::NoteOn => 3,
        }
    }
}

/// An event of a track: when it happens, what it ranks with on its tick, and its bytes.
pub struct Placed {
    pub tick: int,
    pub rank: Rank,
    pub bytes: Seq<u8>,
}

struct Event {
    tick: u32,
    rank: Rank,
    bytes: Vec<u8>,
}

impl View for Event {
    type V = Placed;

    closed spec fn view(&self) -> Placed {
        Placed { tick: self.tick as int, rank: self.rank, bytes: self.bytes@ }
    }
}

spec fn views(events: Seq<Event>) -> Seq<Placed> {
    events.map_values(|e: Event| e@)
}

/// `a` goes no later than `b`: by tick, and on the same tick by rank.
pub open spec fn no_later(a: Placed, b: Placed) -> bool {
    a.tick < b.tick || (a.tick == b.tick && a.rank.spec_order() <= b.rank.spec_order())
}

/// Puts an event behind everything that goes no later than it.
pub open spec fn inserted(events: Seq<Placed>, event: Placed) -> Seq<Placed>
    decreases events.len(),
{
    if events.len() == 0 || no_later(events.last(), event) {
        events.push(event)
    } else {
        inserted(events.drop_last(), event).push(events.last())
    }
}

/// Events in the order of a track: by tick and rank, and where both agree as they came.
pub open spec fn in_track_order(events: Seq<Placed>) -> Seq<Placed>
    decreases events.len(),
{
    if events.len() == 0 {
        events
    } else {
        inserted(in_track_order(events.drop_last()), events.last())
    }
}

/// Two ordered runs as one; what is in both goes first from `a`.
spec fn merged(a: Seq<Placed>, b: Seq<Placed>) -> Seq<Placed>
    decreases a.len() + b.len(),
{
    if b.len() == 0 {
        a
    } else if a.len() == 0 || no_later(a.last(), b.last()) {
        merged(a, b.drop_last()).push(b.last())
    } else {
        merged(a.drop_last(), b).push(a.last())
    }
}

proof fn lemma_merged_last(a: Seq<Placed>, b: Seq<Placed>)
    requires
        a.len() + b.len() > 0,
    ensures
        merged(a, b).len() > 0,
        b.len() == 0 ==> merged(a, b).last() == a.last(),
        b.len() > 0 && (a.len() == 0 || no_later(a.last(), b.last())) ==> merged(a, b).last()
            == b.last() && merged(a, b).drop_last() == merged(a, b.drop_last()),
        b.len() > 0 && a.len() > 0 && !no_later(a.last(), b.last()) ==> merged(a, b).last()
            == a.last() && merged(a, b).drop_last() == merged(a.drop_last(), b),
{
    if b.len() > 0 {
        if a.len() == 0 || no_later(a.last(), b.last()) {
            assert(merged(a, b).drop_last() =~= merged(a, b.drop_last()));
        } else {
            assert(merged(a, b).drop_last() =~= merged(a.drop_last(), b));
        }
    }
}

/// Inserting after merging is merging after inserting.
proof fn lemma_merged_inserted(a: Seq<Placed>, b: Seq<Placed>, x: Placed)
    ensures
        inserted(merged(a, b), x) == merged(a, inserted(b, x)),
    decreases a.len() + b.len(),
{
    if b.len() == 0 {
        let single = seq![x];
        assert(inserted(b, x) =~= single);
        assert(single.drop_last() =~= b);
        if a.len() > 0 && !no_later(a.last(), x) {
            lemma_merged_inserted(a.drop_last(), b, x);
        }
    } else if no_later(b.last(), x) {
        let more = b.push(x);
        assert(more.drop_last() =~= b);
        lemma_merged_last(a, b);
        if a.len() > 0 && !no_later(a.last(), x) {
            assert(!no_later(a.last(), b.last()));
            lemma_merged_inserted(a.drop_last(), b, x);
            assert(inserted(b, x) == more);
        }
    } else {
        let fewer = b.drop_last();
        let more = inserted(fewer, x).push(b.last());
        assert(more.drop_last() =~= inserted(fewer, x));
        assert(inserted(b, x) == more);
        lemma_merged_last(a, b);
        if a.len() == 0 || no_later(a.last(), b.last()) {
            lemma_merged_inserted(a, fewer, x);
        } else {
            lemma_merged_inserted(a.drop_last(), b, x);
        }
    }
}

/// Ordering two runs and merging them orders the whole.
proof fn lemma_order_of_halves(a: Seq<Placed>, b: Seq<Placed>)
    ensures
        in_track_order(a + b) == merged(in_track_order(a), in_track_order(b)),
    decreases b.len(),
{
    if b.len() == 0 {
        assert(a + b =~= a);
    } else {
        assert((a + b).drop_last() =~= a + b.drop_last());
        assert((a + b).last() == b.last());
        lemma_order_of_halves(a, b.drop_last());
        lemma_merged_inserted(in_track_order(a), in_track_order(b.drop_last()), b.last());
    }
}

/// Whether `a` goes no later than `b`.
fn goes_no_later(a: &Event, b: &Event) -> (yes: bool)
    ensures
        yes == no_later(a@, b@),
{
    a.tick < b.tick || (a.tick == b.tick && a.rank.order() <= b.rank.order())
}

/// Two ordered runs as one.
fn merge(a: Vec<Event>, b: Vec<Event>) -> (all: Vec<Event>)
    ensures
        views(all@) == merged(views(a@), views(b@)),
{
    let ghost whole = merged(views(a@), views(b@));
    let mut a = a;
    let mut b = b;
    // Taken from the back, so what is collected is the end of the merged run, last event first.
    let mut collected: Vec<Event> = Vec::new();
    assert(whole =~= whole + views(collected@).reverse());
    while b.len() > 0
        invariant
            whole == merged(views(a@), views(b@)) + views(collected@).reverse(),
        decreases a@.len() + b@.len(),
    {
        let ghost (old_a, old_b, old_c) = (views(a@), views(b@), views(collected@));
        let from_b: bool = a.len() == 0 || goes_no_later(&a[a.len() - 1], &b[b.len() - 1]);
        let next: Option<Event> = if from_b {
            b.pop()
        } else {
            a.pop()
        };
        proof {
            lemma_merged_last(old_a, old_b);
            if from_b {
                assert(views(b@) =~= old_b.drop_last());
                assert(old_b.last() == next.unwrap()@);
            } else {
                assert(views(a@) =~= old_a.drop_last());
                assert(old_a.last() == next.unwrap()@);
            }
        }
        if let Some(event) = next {
            collected.push(event);
            assert(views(collected@) =~= old_c.push(event@));
            assert(views(collected@).reverse() =~= seq![event@] + old_c.reverse());
            assert(merged(old_a, old_b) =~= merged(views(a@), views(b@)).push(event@));
            assert(whole =~= merged(views(a@), views(b@)) + views(collected@).reverse());
        }
    }
    let ghost rest = views(a@);
    assert(merged(rest, views(b@)) == rest);
    while collected.len() > 0
        invariant
            whole == views(a@) + views(collected@).reverse(),
        decreases collected@.len(),
    {
        let ghost (old_a, old_c) = (views(a@), views(collected@));
        if let Some(event) = collected.pop() {
            assert(old_c =~= views(collected@).push(event@));
            a.push(event);
            assert(views(a@) =~= old_a.push(event@));
            assert(old_c.reverse() =~= seq![event@] + views(collected@).reverse());
            assert(whole =~= views(a@) + views(collected@).reverse());
        }
    }
    assert(views(a@) + views(collected@).reverse() =~= views(a@));
    a
}

/// Brings events into the order of a track.
fn sort(events: Vec<Event>) -> (sorted: Vec<Event>)
    ensures
        views(sorted@) == in_track_order(views(events@)),
    decreases events@.len(),
{
    let mut events = events;
    let ghost all = views(events@);
    let count: usize = events.len();
    if count < 2 {
        proof {
            reveal_with_fuel(in_track_order, 2);
            if count == 1 {
                assert(in_track_order(all) =~= all);
            }
        }
        return events;
    }
    let tail = events.split_off(count / 2);
    let ghost (front, back) = (views(events@), views(tail@));
    assert(all =~= front + back);
    proof {
        lemma_order_of_halves(front, back);
    }
    let front = sort(events);
    let back = sort(tail);
    merge(front, back)
}

/// The name of a track, where it has one: at most 127 bytes of it.
pub open spec fn name_events(name: Seq<char>) -> Seq<Placed> {
    let bytes = encode_utf8(name);
    let kept = if bytes.len() > 127 {
        bytes.take(127)
    } else {
        bytes
    };
    if name.len() == 0 {
        Seq::empty()
    } else {
        seq![
            Placed {
                tick: 0,
                rank: Rank::Meta,
                bytes: seq![0xFFu8, 0x03, kept.len() as u8] + kept,
            },
        ]
    }
}

/// A tempo and a meter, from `tick` on.
pub open spec fn signature_events(tick: int, micros: int, meter: Meter) -> Seq<Placed> {
    seq![
        Placed { tick, rank: Rank::Meta, bytes: tempo_bytes(micros) },
        Placed { tick, rank: Rank::Meta, bytes: meter_bytes(meter) },
    ]
}

/// The tempo and meter changes inside a selection.
pub open spec fn change_events<N>(
    changes: Seq<(u64, N, Meter)>,
    tick: spec_fn(u64) -> u32,
    micros: spec_fn(N) -> u64,
) -> Seq<Placed>
    decreases changes.len(),
{
    if changes.len() == 0 {
        Seq::empty()
    } else {
        let (frame, bpm, meter) = changes.last();
        change_events(changes.drop_last(), tick, micros) + signature_events(
            tick(frame) as int,
            micros(bpm) as int,
            meter,
        )
    }
}

/// The value that a controller had just before `start`, where it had one.
pub open spec fn control_before(
    controls: Seq<ControlChange>,
    start: u64,
    channel: int,
    controller: int,
) -> Option<u8>
    decreases controls.len(),
{
    if controls.len() == 0 {
        None
    } else {
        let last = controls.last();
        if last.frame < start && last.channel % 16 == channel && last.controller % 128
            == controller {
            Some((last.value % 128) as u8)
        } else {
            control_before(controls.drop_last(), start, channel, controller)
        }
    }
}

/// The controllers in force where the selection starts, at tick zero: the first `n` of them, by
/// channel and then by controller.
pub open spec fn control_snapshot(controls: Seq<ControlChange>, start: u64, n: nat) -> Seq<Placed>
    decreases n,
{
    if n == 0 {
        Seq::empty()
    } else {
        let k = n - 1;
        let earlier = control_snapshot(controls, start, k as nat);
        match control_before(controls, start, k / 128, k % 128) {
            Some(value) => earlier.push(
                Placed {
                    tick: 0,
                    rank: Rank::Control,
                    bytes: seq![(0xB0 + k / 128) as u8, (k % 128) as u8, value],
                },
            ),
            None => earlier,
        }
    }
}

/// A pitch bend is clamped to 14 bits.
pub open spec fn bend14(value: u16) -> u16 {
    if value > 16_383 {
        16_383
    } else {
        value
    }
}

pub open spec fn bend_bytes(channel: int, value: u16) -> Seq<u8> {
    seq![(0xE0 + channel) as u8, (value % 128) as u8, (value / 128) as u8]
}

/// The pitch bend of a channel just before `start`, where there was one.
pub open spec fn bend_before(bends: Seq<PitchBend>, start: u64, channel: int) -> Option<u16>
    decreases bends.len(),
{
    if bends.len() == 0 {
        None
    } else {
        let last = bends.last();
        if last.frame < start && last.channel % 16 == channel {
            Some(bend14(last.value))
        } else {
            bend_before(bends.drop_last(), start, channel)
        }
    }
}

/// The pitch bends in force where the selection starts, at tick zero, of the first `n` channels.
pub open spec fn bend_snapshot(bends: Seq<PitchBend>, start: u64, n: nat) -> Seq<Placed>
    decreases n,
{
    if n == 0 {
        Seq::empty()
    } else {
        let k = n - 1;
        let earlier = bend_snapshot(bends, start, k as nat);
        match bend_before(bends, start, k) {
            Some(value) => earlier.push(
                Placed { tick: 0, rank: Rank::Control, bytes: bend_bytes(k, value) },
            ),
            None => earlier,
        }
    }
}

/// The controller changes inside a selection.
pub open spec fn control_events(
    controls: Seq<ControlChange>,
    within: Selection,
    tick: spec_fn(u64) -> u32,
) -> Seq<Placed>
    decreases controls.len(),
{
    if controls.len() == 0 {
        Seq::empty()
    } else {
        let earlier = control_events(controls.drop_last(), within, tick);
        let last = controls.last();
        if within.start <= last.frame < within.end {
            earlier.push(
                Placed {
                    tick: tick(last.frame) as int,
                    rank: Rank::Control,
                    bytes: seq![
                        (0xB0 + last.channel % 16) as u8,
                        (last.controller % 128) as u8,
                        (last.value % 128) as u8,
                    ],
                },
            )
        } else {
            earlier
        }
    }
}

/// The pitch bends inside a selection.
pub open spec fn bend_events(
    bends: Seq<PitchBend>,
    within: Selection,
    tick: spec_fn(u64) -> u32,
) -> Seq<Placed>
    decreases bends.len(),
{
    if bends.len() == 0 {
        Seq::empty()
    } else {
        let earlier = bend_events(bends.drop_last(), within, tick);
        let last = bends.last();
        if within.start <= last.frame < within.end {
            earlier.push(
                Placed {
                    tick: tick(last.frame) as int,
                    rank: Rank::Control,
                    bytes: bend_bytes(last.channel as int % 16, bend14(last.value)),
                },
            )
        } else {
            earlier
        }
    }
}

/// Where a note stops: where it was let go, but no later than the end of the selection unless it
/// may ring. One still held when the buffer was read gets the boundary either way.
pub open spec fn stop_of(note: Note, end: u64, let_ring: bool) -> u64 {
    match note.end {
        Some(stop) => if let_ring || stop < end {
            stop
        } else {
            end
        },
        None => end,
    }
}

/// The frame of a note's release: where it stops, but not before it starts.
pub open spec fn release_of(note: Note, end: u64, let_ring: bool) -> u64 {
    let stop = stop_of(note, end, let_ring);
    if stop > note.start {
        stop
    } else {
        note.start
    }
}

/// The tick of a note's release: it occupies at least one tick.
pub open spec fn off_tick(note: Note, end: u64, let_ring: bool, tick: spec_fn(u64) -> u32) -> int {
    let released = tick(release_of(note, end, let_ring));
    if released > tick(note.start) {
        released as int
    } else {
        tick(note.start) + 1
    }
}

pub open spec fn on_bytes(note: Note) -> Seq<u8> {
    let velocity = if note.on_velocity < 1 {
        1
    } else if note.on_velocity > 127 {
        127
    } else {
        note.on_velocity
    };
    seq![(0x90 + note.channel % 16) as u8, (note.key % 128) as u8, velocity]
}

pub open spec fn off_bytes(note: Note) -> Seq<u8> {
    seq![
        (0x80 + note.channel % 16) as u8,
        (note.key % 128) as u8,
        (note.off_velocity % 128) as u8,
    ]
}

/// The notes of a selection. Onset decides membership: a note that began before it is not in it
/// however far it rings.
pub open spec fn note_events(
    notes: Seq<Note>,
    within: Selection,
    let_ring: bool,
    tick: spec_fn(u64) -> u32,
) -> Seq<Placed>
    decreases notes.len(),
{
    if notes.len() == 0 {
        Seq::empty()
    } else {
        let earlier = note_events(notes.drop_last(), within, let_ring, tick);
        let note = notes.last();
        if within.start <= note.start < within.end {
            earlier + seq![
                Placed {
                    tick: tick(note.start) as int,
                    rank: Rank::NoteOn,
                    bytes: on_bytes(note),
                },
                Placed {
                    tick: off_tick(note, within.end, let_ring, tick),
                    rank: Rank::NoteOff,
                    bytes: off_bytes(note),
                },
            ]
        } else {
            earlier
        }
    }
}

/// How long a track is: to the end of the selection, or to the last release where that is later.
pub open spec fn length_of(
    notes: Seq<Note>,
    within: Selection,
    let_ring: bool,
    tick: spec_fn(u64) -> u32,
) -> int
    decreases notes.len(),
{
    if notes.len() == 0 {
        tick(within.end) as int
    } else {
        let so_far = length_of(notes.drop_last(), within, let_ring, tick);
        let note = notes.last();
        let off = off_tick(note, within.end, let_ring, tick);
        if within.start <= note.start < within.end && off > so_far {
            off
        } else {
            so_far
        }
    }
}

/// Events as bytes, each preceded by how many ticks it comes after the one before it.
pub open spec fn delta_bytes(events: Seq<Placed>) -> Seq<u8>
    decreases events.len(),
{
    if events.len() == 0 {
        Seq::empty()
    } else {
        let earlier = events.drop_last();
        delta_bytes(earlier) + varint(
            ((events.last().tick - last_tick(earlier)) % 0x1000_0000) as nat,
        ) + events.last().bytes
    }
}

/// The tick of the last of some events, or the beginning.
pub open spec fn last_tick(events: Seq<Placed>) -> int {
    if events.len() == 0 {
        0
    } else {
        events.last().tick
    }
}

/// A track: its events in order, and its end at `length` ticks.
pub open spec fn track_bytes(events: Seq<Placed>, length: int) -> Seq<u8> {
    let left = if length > last_tick(events) {
        length - last_tick(events)
    } else {
        0
    };
    delta_bytes(events) + varint((left % 0x1000_0000) as nat) + seq![0xFFu8, 0x2F, 0x00]
}

/// Everything that a selection of a clip comes to, before it is put in order.
pub open spec fn clip_events<N>(
    within: Selection,
    segments: Seq<crate::tempo::Segment<N>>,
    clip: Clip,
    options: SmfOptions,
    tick: spec_fn(u64) -> u32,
    micros: spec_fn(N) -> u64,
) -> Seq<Placed> {
    let opening = segments[crate::tempo::in_force_at(segments, within.start)];
    name_events(options.name@) + signature_events(0, micros(opening.bpm) as int, opening.meter)
        + change_events(
        crate::tempo::changes_between(segments, within.start, within.end),
        tick,
        micros,
    ) + control_snapshot(clip.controls@, within.start, 2048) + bend_snapshot(
        clip.bends@,
        within.start,
        16,
    ) + control_events(clip.controls@, within, tick) + bend_events(clip.bends@, within, tick)
        + note_events(clip.notes@, within, options.let_ring, tick)
}

/// Where the changes of a clip fall was asked, and what their tempos come to.
pub open spec fn changes_asked<N, T: Fn(u64) -> u32, M: Fn(N) -> u64>(
    changes: Seq<(u64, N, Meter)>,
    tick: T,
    micros: M,
) -> bool {
    forall|i: int|
        0 <= i < changes.len() ==> crate::ask::answered(tick, (#[trigger] changes[i]).0)
            && crate::ask::answered(micros, changes[i].1)
}

/// Where the controller changes of a selection fall was asked.
pub open spec fn controls_asked<T: Fn(u64) -> u32>(
    controls: Seq<ControlChange>,
    within: Selection,
    tick: T,
) -> bool {
    forall|i: int|
        0 <= i < controls.len() && within.start <= (#[trigger] controls[i]).frame < within.end
            ==> crate::ask::answered(tick, controls[i].frame)
}

/// Where the pitch bends of a selection fall was asked.
pub open spec fn bends_asked<T: Fn(u64) -> u32>(
    bends: Seq<PitchBend>,
    within: Selection,
    tick: T,
) -> bool {
    forall|i: int|
        0 <= i < bends.len() && within.start <= (#[trigger] bends[i]).frame < within.end
            ==> crate::ask::answered(tick, bends[i].frame)
}

/// Where the strikes and the releases of a selection fall was asked.
pub open spec fn notes_asked<T: Fn(u64) -> u32>(
    notes: Seq<Note>,
    within: Selection,
    let_ring: bool,
    tick: T,
) -> bool {
    forall|i: int|
        0 <= i < notes.len() && within.start <= (#[trigger] notes[i]).start < within.end
            ==> crate::ask::answered(tick, notes[i].start) && crate::ask::answered(
            tick,
            release_of(notes[i], within.end, let_ring),
        )
}

/// Every strike of a selection leaves a tick for its release.
pub open spec fn strikes_leave_room<T: Fn(u64) -> u32>(
    notes: Seq<Note>,
    within: Selection,
    tick: T,
) -> bool {
    forall|i: int, t: u32|
        0 <= i < notes.len() && within.start <= notes[i].start < within.end
            && #[trigger] tick.ensures((notes[i].start,), t) ==> t < u32::MAX
}

/// A type 0 file of one track.
pub open spec fn file_bytes(ppq: int, track: Seq<u8>) -> Seq<u8> {
    seq![0x4Du8, 0x54, 0x68, 0x64] + crate::bytes::be32(6) + crate::bytes::be16(0)
        + crate::bytes::be16(1) + crate::bytes::be16(ppq) + seq![0x4Du8, 0x54, 0x72, 0x6B]
        + crate::bytes::be32(track.len() as int % 0x1_0000_0000) + track
}

fn place(events: &mut Vec<Event>, tick: u32, rank: Rank, bytes: Vec<u8>)
    ensures
        views(final(events)@) == views(old(events)@).push(
            Placed { tick: tick as int, rank, bytes: bytes@ },
        ),
{
    events.push(Event { tick, rank, bytes });
    assert(views(events@) =~= views(old(events)@).push(
        Placed { tick: tick as int, rank, bytes: bytes@ },
    ));
}

/// Three bytes of a channel message.
fn message(status: u8, data1: u8, data2: u8) -> (bytes: Vec<u8>)
    ensures
        bytes@ == seq![status, data1, data2],
{
    let mut bytes: Vec<u8> = Vec::new();
    bytes.push(status);
    bytes.push(data1);
    bytes.push(data2);
    assert(bytes@ =~= seq![status, data1, data2]);
    bytes
}

fn place_name(events: &mut Vec<Event>, name: &str)
    ensures
        views(final(events)@) == views(old(events)@) + name_events(name@),
{
    if name.is_empty() {
        assert(views(events@) =~= views(old(events)@) + name_events(name@));
        return;
    }
    let text = name.as_bytes();
    let kept: usize = if text.len() > 127 {
        127
    } else {
        text.len()
    };
    let mut bytes: Vec<u8> = Vec::new();
    bytes.push(0xFF);
    bytes.push(0x03);
    bytes.push(kept as u8);
    let ghost head = bytes@;
    let mut i: usize = 0;
    while i < kept
        invariant
            i <= kept <= text@.len(),
            bytes@ =~= head + text@.take(i as int),
        decreases kept - i,
    {
        bytes.push(text[i]);
        i = i + 1;
    }
    proof {
        let whole = if text@.len() > 127 {
            text@.take(127)
        } else {
            text@
        };
        assert(text@.take(kept as int) =~= whole);
        assert(bytes@ =~= seq![0xFFu8, 0x03, whole.len() as u8] + whole);
    }
    place(events, 0, Rank::Meta, bytes);
    assert(views(events@) =~= views(old(events)@) + name_events(name@));
}

fn place_signature(events: &mut Vec<Event>, tick: u32, micros: u64, meter: Meter)
    ensures
        views(final(events)@) == views(old(events)@) + signature_events(
            tick as int,
            micros as int,
            meter,
        ),
{
    place(events, tick, Rank::Meta, tempo_meta(micros));
    place(events, tick, Rank::Meta, meter_meta(meter));
    assert(views(events@) =~= views(old(events)@) + signature_events(
        tick as int,
        micros as int,
        meter,
    ));
}

fn place_changes<N: Copy, T: Fn(u64) -> u32, M: Fn(N) -> u64>(
    events: &mut Vec<Event>,
    changes: &Vec<(u64, N, Meter)>,
    tick: &T,
    micros: &M,
)
    requires
        crate::ask::consistent(*tick),
        crate::ask::consistent(*micros),
    ensures
        views(final(events)@) == views(old(events)@) + change_events(
            changes@,
            |frame: u64| crate::ask::answer(*tick, frame),
            |bpm: N| crate::ask::answer(*micros, bpm),
        ),
        changes_asked(changes@, *tick, *micros),
{
    let ghost at = |frame: u64| crate::ask::answer(*tick, frame);
    let ghost length = |bpm: N| crate::ask::answer(*micros, bpm);
    let mut i: usize = 0;
    assert(changes@.take(0) =~= Seq::empty());
    assert(views(events@) =~= views(old(events)@) + change_events(changes@.take(0), at, length));
    while i < changes.len()
        invariant
            i <= changes@.len(),
            crate::ask::consistent(*tick),
            crate::ask::consistent(*micros),
            at == (|frame: u64| crate::ask::answer(*tick, frame)),
            length == (|bpm: N| crate::ask::answer(*micros, bpm)),
            changes_asked(changes@.take(i as int), *tick, *micros),
            views(events@) == views(old(events)@) + change_events(
                changes@.take(i as int),
                at,
                length,
            ),
        decreases changes@.len() - i,
    {
        let (frame, bpm, meter) = changes[i];
        assert(changes@.take(i + 1).drop_last() =~= changes@.take(i as int));
        place_signature(events, ask(tick, frame), ask(micros, bpm), meter);
        i = i + 1;
        assert(views(events@) =~= views(old(events)@) + change_events(
            changes@.take(i as int),
            at,
            length,
        ));
    }
    assert(changes@.take(i as int) =~= changes@);
}

fn place_control_snapshot(events: &mut Vec<Event>, controls: &[ControlChange], start: u64)
    ensures
        views(final(events)@) == views(old(events)@) + control_snapshot(controls@, start, 2048),
{
    let mut table: Vec<Option<u8>> = vec![None;2048];
    let mut i: usize = 0;
    assert(controls@.take(0) =~= Seq::empty());
    while i < controls.len()
        invariant
            i <= controls@.len(),
            table@.len() == 2048,
            forall|k: int|
                0 <= k < 2048 ==> #[trigger] table@[k] == control_before(
                    controls@.take(i as int),
                    start,
                    k / 128,
                    k % 128,
                ),
        decreases controls@.len() - i,
    {
        let control = controls[i];
        let key: usize = (control.channel % 16) as usize * 128 + (control.controller
            % 128) as usize;
        assert(controls@.take(i + 1).drop_last() =~= controls@.take(i as int));
        if control.frame < start {
            table.set(key, Some(control.value % 128));
        }
        i = i + 1;
    }
    assert(controls@.take(i as int) =~= controls@);
    let mut k: usize = 0;
    assert(views(events@) =~= views(old(events)@) + control_snapshot(controls@, start, 0));
    while k < 2048
        invariant
            k <= 2048,
            table@.len() == 2048,
            forall|k: int|
                0 <= k < 2048 ==> #[trigger] table@[k] == control_before(
                    controls@,
                    start,
                    k / 128,
                    k % 128,
                ),
            views(events@) == views(old(events)@) + control_snapshot(controls@, start, k as nat),
        decreases 2048 - k,
    {
        if let Some(value) = table[k] {
            place(
                events,
                0,
                Rank::Control,
                message((0xB0 + k / 128) as u8, (k % 128) as u8, value),
            );
        }
        k = k + 1;
        assert(views(events@) =~= views(old(events)@) + control_snapshot(
            controls@,
            start,
            k as nat,
        ));
    }
}

fn place_bend_snapshot(events: &mut Vec<Event>, bends: &[PitchBend], start: u64)
    ensures
        views(final(events)@) == views(old(events)@) + bend_snapshot(bends@, start, 16),
{
    let mut table: Vec<Option<u16>> = vec![None;16];
    let mut i: usize = 0;
    assert(bends@.take(0) =~= Seq::empty());
    while i < bends.len()
        invariant
            i <= bends@.len(),
            table@.len() == 16,
            forall|k: int|
                0 <= k < 16 ==> #[trigger] table@[k] == bend_before(
                    bends@.take(i as int),
                    start,
                    k,
                ),
            forall|k: int| 0 <= k < 16 ==> (#[trigger] table@[k] matches Some(v) ==> v <= 16_383),
        decreases bends@.len() - i,
    {
        let bend = bends[i];
        assert(bends@.take(i + 1).drop_last() =~= bends@.take(i as int));
        if bend.frame < start {
            let value: u16 = if bend.value > 16_383 {
                16_383
            } else {
                bend.value
            };
            table.set((bend.channel % 16) as usize, Some(value));
        }
        i = i + 1;
    }
    assert(bends@.take(i as int) =~= bends@);
    let mut k: usize = 0;
    assert(views(events@) =~= views(old(events)@) + bend_snapshot(bends@, start, 0));
    while k < 16
        invariant
            k <= 16,
            table@.len() == 16,
            forall|k: int|
                0 <= k < 16 ==> #[trigger] table@[k] == bend_before(bends@, start, k),
            forall|k: int| 0 <= k < 16 ==> (#[trigger] table@[k] matches Some(v) ==> v <= 16_383),
            views(events@) == views(old(events)@) + bend_snapshot(bends@, start, k as nat),
        decreases 16 - k,
    {
        if let Some(value) = table[k] {
            place(
                events,
                0,
                Rank::Control,
                message((0xE0 + k) as u8, (value % 128) as u8, (value / 128) as u8),
            );
        }
        k = k + 1;
        assert(views(events@) =~= views(old(events)@) + bend_snapshot(bends@, start, k as nat));
    }
}

fn place_controls<T: Fn(u64) -> u32>(
    events: &mut Vec<Event>,
    controls: &[ControlChange],
    within: Selection,
    tick: &T,
)
    requires
        crate::ask::consistent(*tick),
    ensures
        views(final(events)@) == views(old(events)@) + control_events(
            controls@,
            within,
            |frame: u64| crate::ask::answer(*tick, frame),
        ),
        controls_asked(controls@, within, *tick),
{
    let ghost at = |frame: u64| crate::ask::answer(*tick, frame);
    let mut i: usize = 0;
    assert(controls@.take(0) =~= Seq::empty());
    assert(views(events@) =~= views(old(events)@) + control_events(controls@.take(0), within, at));
    while i < controls.len()
        invariant
            i <= controls@.len(),
            crate::ask::consistent(*tick),
            at == (|frame: u64| crate::ask::answer(*tick, frame)),
            controls_asked(controls@.take(i as int), within, *tick),
            views(events@) == views(old(events)@) + control_events(
                controls@.take(i as int),
                within,
                at,
            ),
        decreases controls@.len() - i,
    {
        let control = controls[i];
        assert(controls@.take(i + 1).drop_last() =~= controls@.take(i as int));
        if control.frame >= within.start && control.frame < within.end {
            place(
                events,
                ask(tick, control.frame),
                Rank::Control,
                message(
                    0xB0 + control.channel % 16,
                    control.controller % 128,
                    control.value % 128,
                ),
            );
        }
        i = i + 1;
        assert(views(events@) =~= views(old(events)@) + control_events(
            controls@.take(i as int),
            within,
            at,
        ));
    }
    assert(controls@.take(i as int) =~= controls@);
}

fn place_bends<T: Fn(u64) -> u32>(
    events: &mut Vec<Event>,
    bends: &[PitchBend],
    within: Selection,
    tick: &T,
)
    requires
        crate::ask::consistent(*tick),
    ensures
        views(final(events)@) == views(old(events)@) + bend_events(
            bends@,
            within,
            |frame: u64| crate::ask::answer(*tick, frame),
        ),
        bends_asked(bends@, within, *tick),
{
    let ghost at = |frame: u64| crate::ask::answer(*tick, frame);
    let mut i: usize = 0;
    assert(bends@.take(0) =~= Seq::empty());
    assert(views(events@) =~= views(old(events)@) + bend_events(bends@.take(0), within, at));
    while i < bends.len()
        invariant
            i <= bends@.len(),
            crate::ask::consistent(*tick),
            at == (|frame: u64| crate::ask::answer(*tick, frame)),
            bends_asked(bends@.take(i as int), within, *tick),
            views(events@) == views(old(events)@) + bend_events(
                bends@.take(i as int),
                within,
                at,
            ),
        decreases bends@.len() - i,
    {
        let bend = bends[i];
        assert(bends@.take(i + 1).drop_last() =~= bends@.take(i as int));
        if bend.frame >= within.start && bend.frame < within.end {
            let value: u16 = if bend.value > 16_383 {
                16_383
            } else {
                bend.value
            };
            place(
                events,
                ask(tick, bend.frame),
                Rank::Control,
                message(0xE0 + bend.channel % 16, (value % 128) as u8, (value / 128) as u8),
            );
        }
        i = i + 1;
        assert(views(events@) =~= views(old(events)@) + bend_events(
            bends@.take(i as int),
            within,
            at,
        ));
    }
    assert(bends@.take(i as int) =~= bends@);
}

/// Places the notes of a selection and says how long the track has to be.
fn place_notes<T: Fn(u64) -> u32>(
    events: &mut Vec<Event>,
    notes: &[Note],
    within: Selection,
    let_ring: bool,
    tick: &T,
) -> (length: u32)
    requires
        crate::ask::consistent(*tick),
        strikes_leave_room(notes@, within, *tick),
    ensures
        views(final(events)@) == views(old(events)@) + note_events(
            notes@,
            within,
            let_ring,
            |frame: u64| crate::ask::answer(*tick, frame),
        ),
        length == length_of(notes@, within, let_ring, |frame: u64| crate::ask::answer(*tick, frame)),
        notes_asked(notes@, within, let_ring, *tick),
        crate::ask::answered(*tick, within.end),
{
    let ghost at = |frame: u64| crate::ask::answer(*tick, frame);
    let mut length: u32 = ask(tick, within.end);
    let mut i: usize = 0;
    assert(notes@.take(0) =~= Seq::empty());
    assert(views(events@) =~= views(old(events)@) + note_events(
        notes@.take(0),
        within,
        let_ring,
        at,
    ));
    while i < notes.len()
        invariant
            i <= notes@.len(),
            crate::ask::consistent(*tick),
            strikes_leave_room(notes@, within, *tick),
            crate::ask::answered(*tick, within.end),
            notes_asked(notes@.take(i as int), within, let_ring, *tick),
            at == (|frame: u64| crate::ask::answer(*tick, frame)),
            views(events@) == views(old(events)@) + note_events(
                notes@.take(i as int),
                within,
                let_ring,
                at,
            ),
            length == length_of(notes@.take(i as int), within, let_ring, at),
        decreases notes@.len() - i,
    {
        let note = notes[i];
        assert(notes@.take(i + 1).drop_last() =~= notes@.take(i as int));
        if note.start >= within.start && note.start < within.end {
            let stop: u64 = match note.end {
                Some(stop) => if let_ring || stop < within.end {
                    stop
                } else {
                    within.end
                },
                None => within.end,
            };
            let on: u32 = ask(tick, note.start);
            assert(tick.ensures((notes@[i as int].start,), on));
            let released: u32 = ask(
                tick,
                if stop > note.start {
                    stop
                } else {
                    note.start
                },
            );
            // A note has to occupy at least one tick, or a host reading the pair back sees a
            // release that never had an attack.
            let off: u32 = if released > on {
                released
            } else {
                on + 1
            };
            let velocity: u8 = if note.on_velocity < 1 {
                1
            } else if note.on_velocity > 127 {
                127
            } else {
                note.on_velocity
            };
            place(
                events,
                on,
                Rank::NoteOn,
                message(0x90 + note.channel % 16, note.key % 128, velocity),
            );
            place(
                events,
                off,
                Rank::NoteOff,
                message(0x80 + note.channel % 16, note.key % 128, note.off_velocity % 128),
            );
            if off > length {
                length = off;
            }
        }
        i = i + 1;
        assert(views(events@) =~= views(old(events)@) + note_events(
            notes@.take(i as int),
            within,
            let_ring,
            at,
        ));
    }
    assert(notes@.take(i as int) =~= notes@);
    length
}

/// The ticks of events in track order never go backwards.
pub open spec fn ticks_in_order(events: Seq<Placed>) -> bool {
    forall|i: int, j: int| 0 <= i <= j < events.len() ==> no_later(events[i], events[j])
}

proof fn lemma_inserted(events: Seq<Placed>, event: Placed)
    requires
        ticks_in_order(events),
    ensures
        ticks_in_order(inserted(events, event)),
        inserted(events, event).len() == events.len() + 1,
        inserted(events, event).to_multiset() =~= events.to_multiset().insert(event),
        events.len() > 0 && !no_later(events.last(), event) ==> inserted(events, event).last()
            == events.last(),
        events.len() == 0 || no_later(events.last(), event) ==> inserted(events, event).last()
            == event,
    decreases events.len(),
{
    broadcast use vstd::seq_lib::group_to_multiset_ensures;

    if events.len() > 0 && !no_later(events.last(), event) {
        let before = events.drop_last();
        let shorter = inserted(before, event);
        lemma_inserted(before, event);
        assert(events =~= before.push(events.last()));
        let whole = inserted(events, event);
        assert forall|i: int, j: int| 0 <= i <= j < whole.len() implies no_later(
            whole[i],
            whole[j],
        ) by {
            if j == shorter.len() && i < j {
                assert(no_later(shorter[i], shorter.last()));
                if before.len() > 0 {
                    assert(no_later(events[before.len() - 1], events.last()));
                    assert(before.last() == events[before.len() - 1]);
                }
            }
        }
    } else {
        let whole = events.push(event);
        assert forall|i: int, j: int| 0 <= i <= j < whole.len() implies no_later(
            whole[i],
            whole[j],
        ) by {
            if i < j && j == events.len() {
                assert(no_later(events[i], events[events.len() - 1]));
            }
        }
    }
}

/// Events are written in time order, on each tick by rank, and none is lost or made up.
pub proof fn law_track_order(events: Seq<Placed>)
    ensures
        ticks_in_order(in_track_order(events)),
        in_track_order(events).len() == events.len(),
        in_track_order(events).to_multiset() == events.to_multiset(),
    decreases events.len(),
{
    broadcast use vstd::seq_lib::group_to_multiset_ensures;

    if events.len() > 0 {
        let before = events.drop_last();
        law_track_order(before);
        lemma_inserted(in_track_order(before), events.last());
        assert(events =~= before.push(events.last()));
    }
}

fn write_track(events: &Vec<Event>, length: u32) -> (track: Vec<u8>)
    requires
        ticks_in_order(views(events@)),
    ensures
        track@ == track_bytes(views(events@), length as int),
{
    let mut track: Vec<u8> = Vec::new();
    let mut previous: u32 = 0;
    let mut i: usize = 0;
    let ghost placed = views(events@);
    assert(placed.take(0) =~= Seq::empty());
    while i < events.len()
        invariant
            i <= events@.len(),
            placed == views(events@),
            ticks_in_order(placed),
            previous == last_tick(placed.take(i as int)),
            track@ == delta_bytes(placed.take(i as int)),
        decreases events@.len() - i,
    {
        assert(placed.take(i + 1).drop_last() =~= placed.take(i as int));
        assert(placed[i as int] == events@[i as int]@);
        if i > 0 {
            assert(no_later(placed[i - 1], placed[i as int]));
        }
        let event = &events[i];
        write_varint(&mut track, event.tick - previous);
        push_all(&mut track, event.bytes.as_slice());
        previous = event.tick;
        i = i + 1;
        assert(track@ =~= delta_bytes(placed.take(i as int)));
    }
    assert(placed.take(i as int) =~= placed);
    write_varint(&mut track, length.saturating_sub(previous));
    track.push(0xFF);
    track.push(0x2F);
    track.push(0x00);
    assert(track@ =~= track_bytes(placed, length as int));
    track
}

/// Writes a type 0 Standard MIDI File for `within`.
///
/// `tick` says where on the tick axis a frame falls, counted from the start of the selection;
/// `micros` says how many microseconds a tempo gives a quarter note. The tick of a strike leaves
/// room for one more.
pub fn write<N: Copy, T: Fn(u64) -> u32, M: Fn(N) -> u64>(
    within: Selection,
    map: &TempoMap<N>,
    clip: &Clip,
    options: &SmfOptions,
    tick: T,
    micros: M,
) -> (out: Vec<u8>)
    requires
        map.wf(),
        crate::ask::consistent(tick),
        crate::ask::consistent(micros),
        strikes_leave_room(clip.notes@, within, tick),
    ensures
        out@ == file_bytes(
            if options.ppq < 1 {
                1
            } else {
                options.ppq as int
            },
            track_bytes(
                in_track_order(
                    clip_events(
                        within,
                        map@,
                        *clip,
                        *options,
                        |frame: u64| crate::ask::answer(tick, frame),
                        |bpm: N| crate::ask::answer(micros, bpm),
                    ),
                ),
                length_of(
                    clip.notes@,
                    within,
                    options.let_ring,
                    |frame: u64| crate::ask::answer(tick, frame),
                ),
            ),
        ),
        crate::ask::answered(micros, map@[crate::tempo::in_force_at(map@, within.start)].bpm),
        crate::ask::answered(tick, within.end),
        changes_asked(
            crate::tempo::changes_between(map@, within.start, within.end),
            tick,
            micros,
        ),
        controls_asked(clip.controls@, within, tick),
        bends_asked(clip.bends@, within, tick),
        notes_asked(clip.notes@, within, options.let_ring, tick),
{
    let ghost at = |frame: u64| crate::ask::answer(tick, frame);
    let ghost lengths = |bpm: N| crate::ask::answer(micros, bpm);
    let ppq: u16 = if options.ppq < 1 {
        1
    } else {
        options.ppq
    };
    let mut events: Vec<Event> = Vec::new();
    let opening = map.segment_at_frame(within.start);
    place_name(&mut events, options.name.as_str());
    place_signature(&mut events, 0, ask(&micros, opening.bpm), opening.meter);
    let changes = map.changes_in(within.start, within.end);
    place_changes(&mut events, &changes, &tick, &micros);
    place_control_snapshot(&mut events, clip.controls, within.start);
    place_bend_snapshot(&mut events, clip.bends, within.start);
    place_controls(&mut events, clip.controls, within, &tick);
    place_bends(&mut events, clip.bends, within, &tick);
    let length: u32 = place_notes(&mut events, clip.notes, within, options.let_ring, &tick);
    assert(views(events@) =~= clip_events(within, map@, *clip, *options, at, lengths));
    proof {
        law_track_order(views(events@));
    }
    let sorted = sort(events);
    let track = write_track(&sorted, length);

    let mut out: Vec<u8> = Vec::new();
    out.push(0x4D);
    out.push(0x54);
    out.push(0x68);
    out.push(0x64);
    push_be32(&mut out, 6);
    push_be16(&mut out, 0);
    push_be16(&mut out, 1);
    push_be16(&mut out, ppq);
    out.push(0x4D);
    out.push(0x54);
    out.push(0x72);
    out.push(0x6B);
    push_be32(&mut out, (track.len() as u64 % 0x1_0000_0000) as u32);
    push_all(&mut out, track.as_slice());
    assert(out@ =~= file_bytes(ppq as int, track@));
    out
}

/// What the lane holds for a selection: the notes struck in it, and every controller change and
/// pitch bend up to its end, from which the exporter takes the state in force where it starts.
#[derive(Debug)]
pub struct Staged {
    pub notes: Vec<Note>,
    pub controls: Vec<ControlChange>,
    pub bends: Vec<PitchBend>,
}

/// A note of the lane as a note of a clip.
pub open spec fn staged_note(note: crate::midi::Note) -> Note {
    Note {
        start: note.start,
        end: note.end,
        channel: note.channel,
        key: note.key,
        on_velocity: note.on_velocity,
        off_velocity: note.off_velocity,
    }
}

/// The controller changes before `end`, in order.
pub open spec fn staged_controls(events: Seq<crate::midi::Event>, end: u64) -> Seq<ControlChange>
    decreases events.len(),
{
    if events.len() == 0 {
        Seq::empty()
    } else {
        let earlier = staged_controls(events.drop_last(), end);
        let last = events.last();
        if crate::midi::precedes(last, 0xB0, end) {
            earlier.push(
                ControlChange {
                    frame: last.frame,
                    channel: last.spec_channel(),
                    controller: last.data1,
                    value: last.data2,
                },
            )
        } else {
            earlier
        }
    }
}

/// The pitch bends before `end`, in order.
pub open spec fn staged_bends(events: Seq<crate::midi::Event>, end: u64) -> Seq<PitchBend>
    decreases events.len(),
{
    if events.len() == 0 {
        Seq::empty()
    } else {
        let earlier = staged_bends(events.drop_last(), end);
        let last = events.last();
        if crate::midi::precedes(last, 0xE0, end) {
            earlier.push(
                PitchBend {
                    frame: last.frame,
                    channel: last.spec_channel(),
                    value: crate::midi::bend_value(last),
                },
            )
        } else {
            earlier
        }
    }
}

impl Staged {
    /// There is nothing on the lane.
    pub fn is_empty(&self) -> (empty: bool)
        ensures
            empty == (self.notes@.len() == 0 && self.controls@.len() == 0 && self.bends@.len()
                == 0),
    {
        self.notes.len() == 0 && self.controls.len() == 0 && self.bends.len() == 0
    }

    pub fn clip(&self) -> (clip: Clip<'_>)
        ensures
            clip.notes@ == self.notes@,
            clip.controls@ == self.controls@,
            clip.bends@ == self.bends@,
    {
        Clip {
            notes: self.notes.as_slice(),
            controls: self.controls.as_slice(),
            bends: self.bends.as_slice(),
        }
    }
}

/// Reads the lane for a selection.
pub fn stage(midi: &MidiRing, within: Selection, let_ring: bool) -> (staged: Staged)
    requires
        midi.wf(),
    ensures
        staged.notes@ == crate::midi::notes_of(
            midi@,
            within.start,
            within.end,
            let_ring,
        ).map_values(|note: crate::midi::Note| staged_note(note)),
        staged.controls@ == staged_controls(midi@, within.end),
        staged.bends@ == staged_bends(midi@, within.end),
{
    let struck = midi.notes_in(within.start, within.end, let_ring);
    let mut notes: Vec<Note> = Vec::new();
    let mut n: usize = 0;
    while n < struck.len()
        invariant
            n <= struck@.len(),
            notes@.len() == n,
            forall|i: int| 0 <= i < n ==> #[trigger] notes@[i] == staged_note(struck@[i]),
        decreases struck@.len() - n,
    {
        let note = struck[n];
        notes.push(
            Note {
                start: note.start,
                end: note.end,
                channel: note.channel,
                key: note.key,
                on_velocity: note.on_velocity,
                off_velocity: note.off_velocity,
            },
        );
        n = n + 1;
    }
    assert(notes@ =~= struck@.map_values(|note: crate::midi::Note| staged_note(note)));
    let events = midi.iter();
    let mut controls: Vec<ControlChange> = Vec::new();
    let mut bends: Vec<PitchBend> = Vec::new();
    let mut i: usize = 0;
    assert(events@.take(0) =~= Seq::empty());
    while i < events.len()
        invariant
            i <= events@.len(),
            controls@ == staged_controls(events@.take(i as int), within.end),
            bends@ == staged_bends(events@.take(i as int), within.end),
        decreases events@.len() - i,
    {
        let event = events[i];
        assert(events@.take(i + 1).drop_last() =~= events@.take(i as int));
        if event.frame < within.end {
            if event.kind() == 0xB0 {
                controls.push(
                    ControlChange {
                        frame: event.frame,
                        channel: event.channel(),
                        controller: event.data1,
                        value: event.data2,
                    },
                );
            } else if event.kind() == 0xE0 {
                bends.push(
                    PitchBend {
                        frame: event.frame,
                        channel: event.channel(),
                        value: join_halves(event.data1, event.data2),
                    },
                );
            }
        }
        i = i + 1;
    }
    assert(events@.take(i as int) =~= events@);
    Staged { notes, controls, bends }
}

/// How many bytes the front of a variable-length quantity takes.
proof fn lemma_continued(value: nat, rest: Seq<u8>, before: nat, scale: nat)
    requires
        scale == vstd::arithmetic::power::pow(128, continued(value).len()),
    ensures
        continued(value).len() > 0,
        read_varint(continued(value) + rest, 0, before) == read_varint(
            continued(value) + rest,
            continued(value).len() as int,
            before * scale + value,
        ),
    decreases value,
{
    let bytes = continued(value) + rest;
    vstd::arithmetic::power::lemma_pow1(128);
    if value < 128 {
        assert(bytes[0] == 128 + value);
        assert(before * scale == before * 128) by (nonlinear_arith)
            requires
                scale == 128,
        ;
    } else {
        let high = value / 128;
        let last = (128 + value % 128) as u8;
        let tail = seq![last] + rest;
        let n = continued(high).len();
        let smaller = vstd::arithmetic::power::pow(128, n) as nat;
        vstd::arithmetic::power::lemma_pow_positive(128, n);
        assert(bytes =~= continued(high) + tail);
        lemma_continued(high, tail, before, smaller);
        assert(bytes[n as int] == last);
        vstd::arithmetic::power::lemma_pow_adds(128, n, 1);
        assert((before * smaller + high) * 128 + value % 128 == before * scale + value)
            by (nonlinear_arith)
            requires
                scale == smaller * 128,
                value == high * 128 + value % 128,
        ;
    }
}

/// A variable-length quantity reads back as what was written, and ends where it was written to
/// end.
pub proof fn law_varint_reads_back(value: nat, rest: Seq<u8>)
    ensures
        read_varint(varint(value) + rest, 0, 0) == (value, varint(value).len() as int),
{
    let bytes = varint(value) + rest;
    if value < 128 {
        assert(bytes[0] == value);
    } else {
        let high = value / 128;
        let last = (value % 128) as u8;
        let tail = seq![last] + rest;
        let n = continued(high).len();
        let scale = vstd::arithmetic::power::pow(128, n) as nat;
        vstd::arithmetic::power::lemma_pow_positive(128, n);
        assert(bytes =~= continued(high) + tail);
        lemma_continued(high, tail, 0, scale);
        assert(bytes[n as int] == last);
        assert(0 * scale == 0) by (nonlinear_arith);
    }
}

/// The length of the track covers the rest of the file.
pub proof fn law_track_length_covers_the_rest(ppq: int, track: Seq<u8>)
    requires
        track.len() < 0x1_0000_0000,
    ensures
        file_bytes(ppq, track).len() == 22 + track.len(),
        crate::bytes::read_be32(file_bytes(ppq, track), 18) == track.len(),
        file_bytes(ppq, track).skip(22) == track,
{
    let file = file_bytes(ppq, track);
    let front = seq![0x4Du8, 0x54, 0x68, 0x64] + crate::bytes::be32(6) + crate::bytes::be16(0)
        + crate::bytes::be16(1) + crate::bytes::be16(ppq) + seq![0x4Du8, 0x54, 0x72, 0x6B];
    let length = crate::bytes::be32(track.len() as int);
    assert(front.len() == 18);
    assert(file == front + length + track);
    assert(file.skip(22) =~= track);
    crate::bytes::lemma_four_bytes_at(front, track.len() as int, track);
}

/// A note never has zero length: its release comes after its strike.
pub proof fn law_a_note_never_has_zero_length(
    note: Note,
    end: u64,
    let_ring: bool,
    tick: spec_fn(u64) -> u32,
)
    ensures
        off_tick(note, end, let_ring, tick) > tick(note.start),
{
}

/// The track is long enough to contain every release, and the whole selection.
pub proof fn law_track_contains_every_release(
    notes: Seq<Note>,
    within: Selection,
    let_ring: bool,
    tick: spec_fn(u64) -> u32,
    n: int,
)
    requires
        0 <= n < notes.len(),
        within.start <= notes[n].start < within.end,
    ensures
        off_tick(notes[n], within.end, let_ring, tick) <= length_of(notes, within, let_ring, tick),
        tick(within.end) <= length_of(notes, within, let_ring, tick),
    decreases notes.len(),
{
    lemma_length_reaches_the_end(notes, within, let_ring, tick);
    if n < notes.len() - 1 {
        law_track_contains_every_release(notes.drop_last(), within, let_ring, tick, n);
    }
}

proof fn lemma_length_reaches_the_end(
    notes: Seq<Note>,
    within: Selection,
    let_ring: bool,
    tick: spec_fn(u64) -> u32,
)
    ensures
        tick(within.end) <= length_of(notes, within, let_ring, tick),
    decreases notes.len(),
{
    if notes.len() > 0 {
        lemma_length_reaches_the_end(notes.drop_last(), within, let_ring, tick);
    }
}

/// The events of one tick and one rank, as they came.
pub open spec fn sharing(events: Seq<Placed>, tick: int, rank: Rank) -> Seq<Placed>
    decreases events.len(),
{
    if events.len() == 0 {
        Seq::empty()
    } else {
        let earlier = sharing(events.drop_last(), tick, rank);
        if events.last().tick == tick && events.last().rank == rank {
            earlier.push(events.last())
        } else {
            earlier
        }
    }
}

proof fn lemma_sharing_inserted(events: Seq<Placed>, event: Placed, tick: int, rank: Rank)
    requires
        ticks_in_order(events),
    ensures
        sharing(inserted(events, event), tick, rank) == if event.tick == tick && event.rank == rank {
            sharing(events, tick, rank).push(event)
        } else {
            sharing(events, tick, rank)
        },
    decreases events.len(),
{
    if events.len() == 0 || no_later(events.last(), event) {
        assert(events.push(event).drop_last() =~= events);
    } else {
        let before = events.drop_last();
        lemma_sharing_inserted(before, event, tick, rank);
        let shorter = inserted(before, event);
        assert(shorter.push(events.last()).drop_last() =~= shorter);
    }
}

/// Events of the same tick and rank keep the order in which they came.
pub proof fn law_track_order_is_stable(events: Seq<Placed>, tick: int, rank: Rank)
    ensures
        sharing(in_track_order(events), tick, rank) == sharing(events, tick, rank),
    decreases events.len(),
{
    if events.len() > 0 {
        let before = events.drop_last();
        law_track_order_is_stable(before, tick, rank);
        law_track_order(before);
        lemma_sharing_inserted(in_track_order(before), events.last(), tick, rank);
    }
}

/// The snapshot at tick zero is the state in force: where a controller was changed before the
/// selection, the snapshot holds the value of its last change, and where it was not, none.
pub proof fn law_snapshot_is_the_state_in_force(
    controls: Seq<ControlChange>,
    start: u64,
    channel: int,
    controller: int,
    last: int,
)
    requires
        -1 <= last < controls.len(),
        last >= 0 ==> controls[last].frame < start && controls[last].channel % 16 == channel
            && controls[last].controller % 128 == controller,
        forall|i: int|
            last < i < controls.len() ==> !((#[trigger] controls[i]).frame < start
                && controls[i].channel % 16 == channel && controls[i].controller % 128
                == controller),
    ensures
        control_before(controls, start, channel, controller) == if last < 0 {
            None
        } else {
            Some((controls[last].value % 128) as u8)
        },
    decreases controls.len(),
{
    if controls.len() > 0 && last < controls.len() - 1 {
        assert(controls[controls.len() - 1] == controls.last());
        law_snapshot_is_the_state_in_force(controls.drop_last(), start, channel, controller, last);
    }
}

} // verus!
