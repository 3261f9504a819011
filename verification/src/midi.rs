//! The MIDI lane: a ring of raw events, and the reading of them into notes.
//!
//! The audio thread copies three bytes and a frame index into a fixed ring. Every interpretation
//! happens later, on whatever thread is asking: pairing note-ons with note-offs, tracking which
//! controller was where, deciding what a note straddling a selection edge means.
//!
//! Events are stamped in capture frames, the same axis as the audio, so a MIDI selection and an
//! audio selection of the same bars cover the same moment.

use crate::bytes::join_halves;
use vstd::arithmetic::power2::*;
use vstd::prelude::*;

verus! {

/// One captured MIDI message. Three bytes covers everything with a channel.
#[derive(Clone, Copy, Debug, PartialEq, Eq, Structural)]
pub struct Event {
    pub frame: u64,
    pub status: u8,
    pub data1: u8,
    pub data2: u8,
}

impl Default for Event {
    fn default() -> (event: Event)
        ensures
            event == (Event { frame: 0, status: 0, data1: 0, data2: 0 }),
    {
        Event { frame: 0, status: 0, data1: 0, data2: 0 }
    }
}

impl Event {
    /// The upper half of the status, in place.
    pub open spec fn spec_kind(self) -> u8 {
        (self.status - self.status % 16) as u8
    }

    /// The lower half of the status.
    pub open spec fn spec_channel(self) -> u8 {
        self.status % 16
    }

    /// The event starts a note: a note-on that carries a velocity.
    pub open spec fn on(self) -> bool {
        self.spec_kind() == 0x90 && self.data2 > 0
    }

    /// The event releases a note: a note-off, or a note-on without a velocity.
    pub open spec fn off(self) -> bool {
        self.spec_kind() == 0x80 || (self.spec_kind() == 0x90 && self.data2 == 0)
    }

    /// What a note sounds on: a channel and a key.
    pub open spec fn voice(self) -> (u8, u8) {
        (self.spec_channel(), self.data1)
    }

    pub fn kind(&self) -> (kind: u8)
        ensures
            kind == self.spec_kind(),
    {
        let status: u8 = self.status;
        assert(status & 0xF0 == status - status % 16) by (bit_vector);
        status & 0xF0
    }

    pub fn channel(&self) -> (channel: u8)
        ensures
            channel == self.spec_channel(),
    {
        let status: u8 = self.status;
        assert(status & 0x0F == status % 16) by (bit_vector);
        status & 0x0F
    }

    /// A note-on with velocity zero is a note-off, and most keyboards send it that way. Treating
    /// the two differently is the classic way to end up with notes that never stop.
    pub fn is_note_on(&self) -> (on: bool)
        ensures
            on == self.on(),
    {
        self.kind() == 0x90 && self.data2 > 0
    }

    pub fn is_note_off(&self) -> (off: bool)
        ensures
            off == self.off(),
    {
        self.kind() == 0x80 || (self.kind() == 0x90 && self.data2 == 0)
    }
}

/// A paired note. `end` is `None` for one still held when the buffer was read.
#[derive(Clone, Copy, Debug, PartialEq, Eq)]
pub struct Note {
    pub start: u64,
    pub end: Option<u64>,
    pub channel: u8,
    pub key: u8,
    pub on_velocity: u8,
    pub off_velocity: u8,
}

/// Controller state, for the snapshot emitted at the start of an exported clip.
#[derive(Clone, Copy, Debug, PartialEq, Eq, Structural)]
pub struct Control {
    pub channel: u8,
    pub controller: u8,
    pub value: u8,
}

/// A fixed, overwriting ring of MIDI events.
///
/// Overwriting rather than blocking: the producer is on the audio thread and must never wait. Old
/// events falling off the back are out of the window and unselectable anyway.
#[derive(Debug)]
pub struct MidiRing {
    events: Vec<Event>,
    write: u64,
}

/// The newest `capacity` of everything that was ever stored, oldest first.
pub open spec fn newest(all: Seq<Event>, capacity: nat) -> Seq<Event> {
    if all.len() <= capacity {
        all
    } else {
        all.skip(all.len() - capacity)
    }
}

/// How many events a ring holds: all that were ever stored, up to its capacity.
pub open spec fn held_of(written: nat, capacity: nat) -> nat {
    if written < capacity {
        written
    } else {
        capacity
    }
}

/// The frames of a run of events never go backwards.
pub open spec fn in_frame_order(events: Seq<Event>) -> bool {
    forall|i: int, j: int| 0 <= i <= j < events.len() ==> events[i].frame <= events[j].frame
}

/// Only channel-voice messages are captured: clock and transport arrive through the clock, and
/// system exclusive has no place in a captured performance.
pub open spec fn captured(status: u8) -> bool {
    0x80 <= status < 0xF0
}

impl MidiRing {
    /// How many events the ring can hold.
    pub closed spec fn spec_capacity(&self) -> nat {
        self.events@.len()
    }

    /// How many events were ever stored.
    pub closed spec fn spec_written(&self) -> nat {
        self.write as nat
    }

    spec fn spec_held(&self) -> nat {
        if self.write < self.events@.len() {
            self.write as nat
        } else {
            self.events@.len()
        }
    }

    pub closed spec fn wf(&self) -> bool {
        &&& exists|k: nat| self.events@.len() == pow2(k)
        &&& self.events@.len() > 0
        &&& in_frame_order(self@)
    }
}

/// A ring is viewed as the events it holds, oldest first.
impl View for MidiRing {
    type V = Seq<Event>;

    closed spec fn view(&self) -> Seq<Event> {
        Seq::new(
            self.spec_held(),
            |i: int|
                self.events@[((self.write - self.spec_held() + i) % (self.events@.len() as int))],
        )
    }
}

/// `after` is `before` with one message stored behind the newest event, or as it was where the
/// message is not one that is captured.
pub open spec fn pushed(before: &MidiRing, after: &MidiRing, event: Event) -> bool {
    &&& after.wf()
    &&& after.spec_capacity() == before.spec_capacity()
    &&& captured(event.status) ==> after.spec_written() == before.spec_written() + 1
    &&& captured(event.status) ==> after@ == newest(before@.push(event), before.spec_capacity())
    &&& !captured(event.status) ==> *after == *before
}

impl MidiRing {
    /// An empty ring. The capacity has to be a power of two.
    pub fn new(capacity: usize) -> (ring: MidiRing)
        requires
            exists|k: nat| capacity == pow2(k),
        ensures
            ring.wf(),
            ring.spec_capacity() == capacity,
            ring.spec_written() == 0,
            ring@ == Seq::<Event>::empty(),
    {
        proof {
            let k = choose|k: nat| capacity == pow2(k);
            lemma_pow2_pos(k);
        }
        let ring = MidiRing {
            events: vec![Event { frame: 0, status: 0, data1: 0, data2: 0 };capacity],
            write: 0,
        };
        assert(ring@ =~= Seq::<Event>::empty());
        ring
    }

    pub fn capacity(&self) -> (capacity: usize)
        ensures
            capacity == self.spec_capacity(),
    {
        self.events.len()
    }

    pub fn written(&self) -> (written: u64)
        ensures
            written == self.spec_written(),
    {
        self.write
    }

    /// Producer entry point. Real-time safe: one store, no allocation.
    ///
    /// Channel-voice messages only. Frames must not go backwards: everything that reads this ring
    /// relies on it, and the audio thread satisfies it because capture frames only ever increase.
    pub fn push(&mut self, frame: u64, status: u8, data1: u8, data2: u8)
        requires
            old(self).wf(),
            old(self)@.len() > 0 ==> old(self)@.last().frame <= frame,
            captured(status) ==> old(self).spec_written() < u64::MAX,
        ensures
            pushed(old(self), final(self), Event { frame, status, data1, data2 }),
    {
        if status < 0x80 || status >= 0xF0 {
            return;
        }
        let ghost before = *self;
        let at: usize = (self.write % (self.events.len() as u64)) as usize;
        let event = Event { frame, status, data1, data2 };
        self.events.set(at, event);
        self.write = self.write + 1;
        proof {
            lemma_push(before, *self, event);
        }
    }

    /// The newest event, where there is one.
    pub fn last(&self) -> (event: Option<Event>)
        requires
            self.wf(),
        ensures
            event == if self@.len() == 0 {
                None
            } else {
                Some(self@.last())
            },
    {
        if self.write == 0 {
            return None;
        }
        let at: usize = ((self.write - 1) % (self.events.len() as u64)) as usize;
        Some(self.events[at])
    }

    /// Every event still in the ring, oldest first.
    pub fn iter(&self) -> (held: Vec<Event>)
        requires
            self.wf(),
        ensures
            held@ == self@,
            held@.len() == held_of(self.spec_written(), self.spec_capacity()),
    {
        let capacity: usize = self.events.len();
        let count: usize = if self.write < capacity as u64 {
            self.write as usize
        } else {
            capacity
        };
        let first: u64 = self.write - count as u64;
        let mut held: Vec<Event> = Vec::new();
        let mut i: usize = 0;
        while i < count
            invariant
                i <= count,
                capacity == self.events@.len(),
                capacity > 0,
                count == self.spec_held(),
                first == self.write - count,
                held@.len() == i,
                forall|n: int| 0 <= n < i ==> held@[n] == self@[n],
            decreases count - i,
        {
            let at: usize = ((first + i as u64) % (capacity as u64)) as usize;
            held.push(self.events[at]);
            i = i + 1;
        }
        assert(held@ =~= self@);
        held
    }
}

/// Storing one event over the oldest slot makes the ring hold the newest events.
proof fn lemma_push(before: MidiRing, after: MidiRing, event: Event)
    requires
        before.wf(),
        before@.len() > 0 ==> before@.last().frame <= event.frame,
        after.write == before.write + 1,
        after.events@ == before.events@.update(
            before.write as int % before.events@.len() as int,
            event,
        ),
    ensures
        after.wf(),
        after@ == newest(before@.push(event), before.spec_capacity()),
{
    let capacity = before.events@.len() as int;
    let w = before.write as int;
    crate::modular::lemma_slot_bound(w, capacity);
    let expected = newest(before@.push(event), before.spec_capacity());
    assert(after@.len() == expected.len());
    assert forall|i: int| 0 <= i < after@.len() implies after@[i] == expected[i] by {
        let slot = w + 1 - after@.len() + i;
        crate::modular::lemma_slot_bound(slot, capacity);
        if slot < w {
            crate::modular::lemma_slots_differ(slot, w, capacity);
        }
    }
    assert(after@ =~= expected);
    assert(in_frame_order(expected));
}

/// How deep the voice of the note struck at `i` is stacked on top of it, that note included, once
/// the events up to `j` have passed: every later strike of the voice adds one, every release of it
/// takes one away.
pub open spec fn depth(events: Seq<Event>, i: int, j: int) -> int
    decreases j - i,
{
    if j <= i + 1 {
        1
    } else {
        let event = events[j - 1];
        let before = depth(events, i, j - 1);
        if event.voice() != events[i].voice() {
            before
        } else if event.on() {
            before + 1
        } else if event.off() {
            before - 1
        } else {
            before
        }
    }
}

/// The event at `j` is the one that lets go of the note struck at `i`: a release ends the most
/// recent strike of its voice that is still held.
pub open spec fn releases(events: Seq<Event>, i: int, j: int) -> bool {
    &&& 0 <= i < j < events.len()
    &&& depth(events, i, j + 1) == 0
    &&& forall|k: int| i < k <= j ==> #[trigger] depth(events, i, k) > 0
}

/// The event at `i` strikes a note inside `[start, end)`.
pub open spec fn strikes_in(event: Event, start: u64, end: u64) -> bool {
    event.on() && start <= event.frame < end
}

/// Where the notes of `[start, end)` are struck, in order.
pub open spec fn onsets(events: Seq<Event>, start: u64, end: u64) -> Seq<int>
    decreases events.len(),
{
    if events.len() == 0 {
        Seq::empty()
    } else {
        let earlier = onsets(events.drop_last(), start, end);
        if strikes_in(events.last(), start, end) {
            earlier.push(events.len() - 1)
        } else {
            earlier
        }
    }
}

/// The note struck at `i`: it lasts until it is let go, or until `edge` if that comes first.
pub open spec fn note_at(events: Seq<Event>, i: int, edge: Option<u64>) -> Note {
    let struck = events[i];
    let base = Note {
        start: struck.frame,
        end: None,
        channel: struck.spec_channel(),
        key: struck.data1,
        on_velocity: struck.data2,
        off_velocity: 0,
    };
    if exists|j: int| releases(events, i, j) {
        let release = events[choose|j: int| releases(events, i, j)];
        Note {
            end: Some(
                match edge {
                    Some(frame) if frame < release.frame => frame,
                    _ => release.frame,
                },
            ),
            off_velocity: release.data2,
            ..base
        }
    } else {
        base
    }
}

/// The notes struck inside `[start, end)`. Onset decides membership. One still sounding at `end`
/// is cut there unless it is let ring; one never released has no end.
pub open spec fn notes_of(events: Seq<Event>, start: u64, end: u64, let_ring: bool) -> Seq<Note> {
    let edge = if let_ring {
        None
    } else {
        Some(end)
    };
    Seq::new(
        onsets(events, start, end).len(),
        |n: int| note_at(events, onsets(events, start, end)[n], edge),
    )
}

/// Entries of the open stack from `q` upwards that sound on `voice`.
spec fn stacked(open: Seq<(u8, u8, usize)>, voice: (u8, u8), q: int) -> int
    decreases open.len() - q,
{
    if q < 0 || q >= open.len() {
        0
    } else {
        stacked(open, voice, q + 1) + if (open[q].0, open[q].1) == voice {
            1int
        } else {
            0int
        }
    }
}

proof fn lemma_stacked_nonneg(open: Seq<(u8, u8, usize)>, voice: (u8, u8), q: int)
    ensures
        stacked(open, voice, q) >= 0,
    decreases open.len() - q,
{
    if 0 <= q < open.len() {
        lemma_stacked_nonneg(open, voice, q + 1);
    }
}

proof fn lemma_stacked_none(open: Seq<(u8, u8, usize)>, voice: (u8, u8), q: int)
    requires
        forall|r: int| q <= r < open.len() ==> (open[r].0, open[r].1) != voice,
    ensures
        stacked(open, voice, q) == 0,
    decreases open.len() - q,
{
    if 0 <= q < open.len() {
        lemma_stacked_none(open, voice, q + 1);
    }
}

proof fn lemma_stacked_push(
    open: Seq<(u8, u8, usize)>,
    entry: (u8, u8, usize),
    voice: (u8, u8),
    q: int,
)
    requires
        0 <= q <= open.len(),
    ensures
        stacked(open.push(entry), voice, q) == stacked(open, voice, q) + if (entry.0, entry.1)
            == voice {
            1int
        } else {
            0int
        },
    decreases open.len() - q,
{
    if q < open.len() {
        lemma_stacked_push(open, entry, voice, q + 1);
    } else {
        assert(stacked(open.push(entry), voice, q + 1) == 0);
    }
}

proof fn lemma_stacked_remove(open: Seq<(u8, u8, usize)>, at: int, voice: (u8, u8), q: int)
    requires
        0 <= at < open.len(),
        0 <= q < open.len(),
    ensures
        q <= at ==> stacked(open.remove(at), voice, q) == stacked(open, voice, q) - if (
        open[at].0, open[at].1) == voice {
            1int
        } else {
            0int
        },
        q > at ==> stacked(open.remove(at), voice, q - 1) == stacked(open, voice, q),
    decreases open.len() - q,
{
    let fewer = open.remove(at);
    if q > at {
        if q + 1 < open.len() {
            lemma_stacked_remove(open, at, voice, q + 1);
        } else {
            assert(stacked(fewer, voice, q) == 0);
            assert(stacked(open, voice, q + 1) == 0);
        }
        assert(fewer[q - 1] == open[q]);
    } else if q == at {
        if q + 1 < open.len() {
            lemma_stacked_remove(open, at, voice, q + 1);
        } else {
            assert(stacked(fewer, voice, q) == 0);
            assert(stacked(open, voice, q + 1) == 0);
        }
    } else {
        lemma_stacked_remove(open, at, voice, q + 1);
        assert(fewer[q] == open[q]);
    }
}

/// What is known of the open stack once `events` have passed: `struck` says where each entry was
/// struck.
spec fn open_voices(
    events: Seq<Event>,
    start: u64,
    end: u64,
    open: Seq<(u8, u8, usize)>,
    struck: Seq<int>,
) -> bool {
    let wanted = onsets(events, start, end);
    &&& struck.len() == open.len()
    &&& forall|q: int|
        0 <= q < struck.len() ==> {
            &&& 0 <= #[trigger] struck[q] < events.len()
            &&& events[struck[q]].on()
            &&& events[struck[q]].voice() == (open[q].0, open[q].1)
            &&& depth(events, struck[q], events.len() as int) == stacked(
                open,
                events[struck[q]].voice(),
                q,
            )
            &&& forall|k: int|
                struck[q] < k <= events.len() ==> #[trigger] depth(events, struck[q], k) > 0
            &&& if strikes_in(events[struck[q]], start, end) {
                open[q].2 < wanted.len() && wanted[open[q].2 as int] == struck[q]
            } else {
                open[q].2 == usize::MAX
            }
        }
    &&& forall|q: int, r: int| 0 <= q < r < struck.len() ==> struck[q] < struck[r]
    &&& forall|n: int|
        0 <= n < wanted.len() ==> struck.contains(#[trigger] wanted[n]) || exists|j: int|
            releases(events, wanted[n], j)
}

proof fn lemma_depth_prefix(events: Seq<Event>, next: Event, i: int, j: int)
    requires
        0 <= i < events.len(),
        j <= events.len(),
    ensures
        depth(events.push(next), i, j) == depth(events, i, j),
    decreases j - i,
{
    if j > i + 1 {
        lemma_depth_prefix(events, next, i, j - 1);
        assert(events.push(next)[j - 1] == events[j - 1]);
    }
}

/// Nothing lets go of a note twice.
pub proof fn lemma_released_once(events: Seq<Event>, i: int, j: int, k: int)
    requires
        releases(events, i, j),
        releases(events, i, k),
    ensures
        j == k,
{
    if j < k {
        assert(depth(events, i, j + 1) > 0);
    }
    if k < j {
        assert(depth(events, i, k + 1) > 0);
    }
}

proof fn lemma_releases_prefix(events: Seq<Event>, next: Event, i: int)
    requires
        0 <= i < events.len(),
    ensures
        forall|j: int|
            j < events.len() ==> (#[trigger] releases(events.push(next), i, j) <==> releases(
                events,
                i,
                j,
            )),
{
    assert forall|j: int| j < events.len() implies (#[trigger] releases(events.push(next), i, j)
        <==> releases(events, i, j)) by {
        if i < j {
            lemma_depth_prefix(events, next, i, j + 1);
            assert forall|k: int| i < k <= j implies #[trigger] depth(events.push(next), i, k)
                == depth(events, i, k) by {
                lemma_depth_prefix(events, next, i, k);
            }
            if releases(events, i, j) {
                assert forall|k: int| i < k <= j implies #[trigger] depth(events.push(next), i, k)
                    > 0 by {
                    assert(depth(events, i, k) > 0);
                }
            }
            if releases(events.push(next), i, j) {
                assert forall|k: int| i < k <= j implies #[trigger] depth(events, i, k) > 0 by {
                    assert(depth(events.push(next), i, k) > 0);
                }
            }
        }
    }
}

/// A note already let go is not changed by what comes later.
proof fn lemma_note_settled(events: Seq<Event>, next: Event, i: int, j: int, edge: Option<u64>)
    requires
        releases(events, i, j),
    ensures
        releases(events.push(next), i, j),
        note_at(events.push(next), i, edge) == note_at(events, i, edge),
{
    lemma_releases_prefix(events, next, i);
    assert(releases(events.push(next), i, j));
    let a = choose|a: int| releases(events, i, a);
    let b = choose|b: int| releases(events.push(next), i, b);
    lemma_released_once(events, i, j, a);
    lemma_released_once(events.push(next), i, j, b);
}

proof fn lemma_onsets_bound(events: Seq<Event>, start: u64, end: u64)
    ensures
        onsets(events, start, end).len() <= events.len(),
        forall|n: int|
            0 <= n < onsets(events, start, end).len() ==> 0 <= #[trigger] onsets(
                events,
                start,
                end,
            )[n] < events.len() && strikes_in(events[onsets(events, start, end)[n]], start, end),
        forall|n: int, m: int|
            0 <= n < m < onsets(events, start, end).len() ==> onsets(events, start, end)[n]
                < onsets(events, start, end)[m],
    decreases events.len(),
{
    if events.len() > 0 {
        lemma_onsets_bound(events.drop_last(), start, end);
    }
}

/// What one more event does to the depth of a voice.
spec fn change(event: Event, voice: (u8, u8)) -> int {
    if event.voice() != voice {
        0
    } else if event.on() {
        1
    } else if event.off() {
        -1
    } else {
        0
    }
}

proof fn lemma_depth_step(events: Seq<Event>, next: Event, i: int)
    requires
        0 <= i < events.len(),
    ensures
        depth(events.push(next), i, events.len() + 1int) == depth(events, i, events.len() as int)
            + change(next, events[i].voice()),
        forall|k: int|
            k <= events.len() ==> #[trigger] depth(events.push(next), i, k) == depth(events, i, k),
{
    assert forall|k: int| k <= events.len() implies #[trigger] depth(events.push(next), i, k)
        == depth(events, i, k) by {
        lemma_depth_prefix(events, next, i, k);
    }
    lemma_depth_prefix(events, next, i, events.len() as int);
    assert(events.push(next)[events.len() as int] == next);
    assert(events.push(next)[i] == events[i]);
}

/// A note that is still held stays as it is when the next event does not release it.
proof fn lemma_note_held(events: Seq<Event>, next: Event, i: int, edge: Option<u64>)
    requires
        0 <= i < events.len(),
        forall|k: int| i < k <= events.len() ==> #[trigger] depth(events, i, k) > 0,
        depth(events, i, events.len() as int) + change(next, events[i].voice()) > 0,
    ensures
        forall|k: int|
            i < k <= events.len() + 1 ==> #[trigger] depth(events.push(next), i, k) > 0,
        note_at(events.push(next), i, edge) == note_at(events, i, edge),
{
    lemma_depth_step(events, next, i);
    let longer = events.push(next);
    assert forall|k: int| i < k <= events.len() + 1 implies #[trigger] depth(longer, i, k) > 0 by {
        if k <= events.len() {
            assert(depth(events, i, k) > 0);
        }
    }
    assert forall|j: int| !(#[trigger] releases(longer, i, j)) by {
        if i < j < longer.len() {
            assert(depth(longer, i, j + 1) > 0);
        }
    }
    assert forall|j: int| !(#[trigger] releases(events, i, j)) by {
        if i < j < events.len() {
            assert(depth(events, i, j + 1) > 0);
        }
    }
}

/// The event that brings a held note's depth to nothing is the one that releases it.
proof fn lemma_note_let_go(events: Seq<Event>, next: Event, i: int)
    requires
        0 <= i < events.len(),
        forall|k: int| i < k <= events.len() ==> #[trigger] depth(events, i, k) > 0,
        depth(events, i, events.len() as int) + change(next, events[i].voice()) == 0,
    ensures
        releases(events.push(next), i, events.len() as int),
        note_at(events.push(next), i, None) == (Note {
            end: Some(next.frame),
            off_velocity: next.data2,
            ..note_at(events, i, None)
        }),
{
    lemma_depth_step(events, next, i);
    let longer = events.push(next);
    let last = events.len() as int;
    assert forall|k: int| i < k <= last implies #[trigger] depth(longer, i, k) > 0 by {
        assert(depth(events, i, k) > 0);
    }
    assert(releases(longer, i, last));
    let j = choose|j: int| releases(longer, i, j);
    lemma_released_once(longer, i, j, last);
    assert forall|j: int| !(#[trigger] releases(events, i, j)) by {
        if i < j < events.len() {
            assert(depth(events, i, j + 1) > 0);
        }
    }
    assert(longer[last] == next);
}

proof fn lemma_onsets_step(events: Seq<Event>, next: Event, start: u64, end: u64)
    ensures
        onsets(events.push(next), start, end) == if strikes_in(next, start, end) {
            onsets(events, start, end).push(events.len() as int)
        } else {
            onsets(events, start, end)
        },
{
    assert(events.push(next).drop_last() =~= events);
}

/// A strike goes on top of the stack.
proof fn lemma_strike(
    events: Seq<Event>,
    next: Event,
    start: u64,
    end: u64,
    open: Seq<(u8, u8, usize)>,
    struck: Seq<int>,
    index: usize,
)
    requires
        open_voices(events, start, end, open, struck),
        next.on(),
        index == if strikes_in(next, start, end) {
            onsets(events, start, end).len()
        } else {
            usize::MAX as nat
        },
    ensures
        open_voices(
            events.push(next),
            start,
            end,
            open.push((next.spec_channel(), next.data1, index)),
            struck.push(events.len() as int),
        ),
        notes_of(events.push(next), start, end, true) == if strikes_in(next, start, end) {
            notes_of(events, start, end, true).push(
                Note {
                    start: next.frame,
                    end: None,
                    channel: next.spec_channel(),
                    key: next.data1,
                    on_velocity: next.data2,
                    off_velocity: 0,
                },
            )
        } else {
            notes_of(events, start, end, true)
        },
{
    let longer = events.push(next);
    let entry = (next.spec_channel(), next.data1, index);
    let open2 = open.push(entry);
    let struck2 = struck.push(events.len() as int);
    let wanted = onsets(events, start, end);
    let wanted2 = onsets(longer, start, end);
    lemma_onsets_step(events, next, start, end);
    lemma_onsets_bound(events, start, end);
    assert forall|q: int| 0 <= q < struck.len() implies {
        &&& depth(longer, #[trigger] struck[q], longer.len() as int) == stacked(
            open2,
            events[struck[q]].voice(),
            q,
        )
        &&& forall|k: int| struck[q] < k <= longer.len() ==> #[trigger] depth(longer, struck[q], k) > 0
        &&& note_at(longer, struck[q], None) == note_at(events, struck[q], None)
    } by {
        let i = struck[q];
        lemma_depth_step(events, next, i);
        lemma_stacked_push(open, entry, events[i].voice(), q);
        assert(depth(events, i, i + 1) > 0);
        assert(depth(events, i, events.len() as int) > 0);
        lemma_note_held(events, next, i, None);
    }
    let top = struck.len() as int;
    assert(stacked(open2, next.voice(), top + 1) == 0);
    assert(depth(longer, events.len() as int, longer.len() as int) == 1);
    assert forall|j: int| !(#[trigger] releases(longer, events.len() as int, j)) by {}
    assert forall|n: int| 0 <= n < wanted.len() implies (struck2.contains(#[trigger] wanted[n])
        || exists|j: int| releases(longer, wanted[n], j)) && note_at(longer, wanted[n], None)
        == note_at(events, wanted[n], None) by {
        if struck.contains(wanted[n]) {
            let q = choose|q: int| 0 <= q < struck.len() && struck[q] == wanted[n];
            assert(struck2[q] == wanted[n]);
            assert(note_at(longer, struck[q], None) == note_at(events, struck[q], None));
        } else {
            let j = choose|j: int| releases(events, wanted[n], j);
            lemma_note_settled(events, next, wanted[n], j, None);
        }
    }
    assert(struck2[top] == events.len());
    assert forall|n: int| 0 <= n < wanted2.len() implies struck2.contains(#[trigger] wanted2[n])
        || exists|j: int| releases(longer, wanted2[n], j) by {
        if n < wanted.len() {
            assert(wanted2[n] == wanted[n]);
        } else {
            assert(wanted2[n] == struck2[top]);
        }
    }
    assert forall|q: int| 0 <= q < struck2.len() implies {
        &&& 0 <= #[trigger] struck2[q] < longer.len()
        &&& longer[struck2[q]].on()
        &&& longer[struck2[q]].voice() == (open2[q].0, open2[q].1)
        &&& depth(longer, struck2[q], longer.len() as int) == stacked(
            open2,
            longer[struck2[q]].voice(),
            q,
        )
        &&& forall|k: int|
            struck2[q] < k <= longer.len() ==> #[trigger] depth(longer, struck2[q], k) > 0
        &&& if strikes_in(longer[struck2[q]], start, end) {
            open2[q].2 < wanted2.len() && wanted2[open2[q].2 as int] == struck2[q]
        } else {
            open2[q].2 == usize::MAX
        }
    } by {
        if q < top {
            assert(struck2[q] == struck[q]);
            assert(longer[struck2[q]] == events[struck[q]]);
        }
    }
    let expected = if strikes_in(next, start, end) {
        notes_of(events, start, end, true).push(
            Note {
                start: next.frame,
                end: None,
                channel: next.spec_channel(),
                key: next.data1,
                on_velocity: next.data2,
                off_velocity: 0,
            },
        )
    } else {
        notes_of(events, start, end, true)
    };
    assert(notes_of(longer, start, end, true) =~= expected);
}

/// An event that finds no held note of its voice, or is no note at all, changes nothing.
proof fn lemma_pass(
    events: Seq<Event>,
    next: Event,
    start: u64,
    end: u64,
    open: Seq<(u8, u8, usize)>,
    struck: Seq<int>,
)
    requires
        open_voices(events, start, end, open, struck),
        !next.on(),
        next.off() ==> forall|q: int|
            0 <= q < open.len() ==> (#[trigger] open[q].0, open[q].1) != next.voice(),
    ensures
        open_voices(events.push(next), start, end, open, struck),
        notes_of(events.push(next), start, end, true) == notes_of(events, start, end, true),
{
    let longer = events.push(next);
    let wanted = onsets(events, start, end);
    lemma_onsets_step(events, next, start, end);
    lemma_onsets_bound(events, start, end);
    assert forall|q: int| 0 <= q < struck.len() implies {
        &&& depth(longer, #[trigger] struck[q], longer.len() as int) == stacked(
            open,
            events[struck[q]].voice(),
            q,
        )
        &&& forall|k: int| struck[q] < k <= longer.len() ==> #[trigger] depth(longer, struck[q], k) > 0
        &&& note_at(longer, struck[q], None) == note_at(events, struck[q], None)
        &&& longer[struck[q]] == events[struck[q]]
    } by {
        let i = struck[q];
        assert((open[q].0, open[q].1) == events[i].voice());
        lemma_depth_step(events, next, i);
        assert(depth(events, i, events.len() as int) > 0);
        lemma_note_held(events, next, i, None);
    }
    assert forall|n: int| 0 <= n < wanted.len() implies (struck.contains(#[trigger] wanted[n])
        || exists|j: int| releases(longer, wanted[n], j)) && note_at(longer, wanted[n], None)
        == note_at(events, wanted[n], None) by {
        if struck.contains(wanted[n]) {
            let q = choose|q: int| 0 <= q < struck.len() && struck[q] == wanted[n];
            assert(note_at(longer, struck[q], None) == note_at(events, struck[q], None));
        } else {
            let j = choose|j: int| releases(events, wanted[n], j);
            lemma_note_settled(events, next, wanted[n], j, None);
        }
    }
    assert(notes_of(longer, start, end, true) =~= notes_of(events, start, end, true));
}

/// A release takes the topmost entry of its voice off the stack and ends that note.
proof fn lemma_let_go(
    events: Seq<Event>,
    next: Event,
    start: u64,
    end: u64,
    open: Seq<(u8, u8, usize)>,
    struck: Seq<int>,
    at: int,
)
    requires
        open_voices(events, start, end, open, struck),
        next.off(),
        0 <= at < open.len(),
        (open[at].0, open[at].1) == next.voice(),
        forall|q: int| at < q < open.len() ==> (#[trigger] open[q].0, open[q].1) != next.voice(),
        events.len() < usize::MAX,
    ensures
        open_voices(events.push(next), start, end, open.remove(at), struck.remove(at)),
        open[at].2 < notes_of(events, start, end, true).len() <==> strikes_in(
            events[struck[at]],
            start,
            end,
        ),
        notes_of(events.push(next), start, end, true) == if strikes_in(
            events[struck[at]],
            start,
            end,
        ) {
            notes_of(events, start, end, true).update(
                open[at].2 as int,
                Note {
                    end: Some(next.frame),
                    off_velocity: next.data2,
                    ..notes_of(events, start, end, true)[open[at].2 as int]
                },
            )
        } else {
            notes_of(events, start, end, true)
        },
{
    let longer = events.push(next);
    let open2 = open.remove(at);
    let struck2 = struck.remove(at);
    let wanted = onsets(events, start, end);
    let gone = struck[at];
    lemma_onsets_step(events, next, start, end);
    lemma_onsets_bound(events, start, end);
    assert(stacked(open, next.voice(), at) == 1) by {
        lemma_stacked_none(open, next.voice(), at + 1);
    }
    assert(events[gone].voice() == next.voice());
    lemma_note_let_go(events, next, gone);
    assert forall|q: int| 0 <= q < struck.len() && q != at implies {
        let i = #[trigger] struck[q];
        let r = if q < at {
            q
        } else {
            q - 1
        };
        &&& depth(longer, i, longer.len() as int) == stacked(open2, events[i].voice(), r)
        &&& forall|k: int| i < k <= longer.len() ==> #[trigger] depth(longer, i, k) > 0
        &&& note_at(longer, i, None) == note_at(events, i, None)
        &&& longer[i] == events[i]
    } by {
        let i = struck[q];
        let voice = events[i].voice();
        assert((open[q].0, open[q].1) == voice);
        lemma_depth_step(events, next, i);
        lemma_stacked_remove(open, at, voice, q);
        assert(depth(events, i, events.len() as int) > 0);
        if q < at && voice == next.voice() {
            assert(open2[q] == open[q]);
            lemma_stacked_nonneg(open2, voice, q + 1);
            assert(stacked(open2, voice, q) >= 1);
        }
        lemma_note_held(events, next, i, None);
    }
    assert forall|n: int| 0 <= n < wanted.len() && #[trigger] wanted[n] != gone implies (
    struck2.contains(wanted[n]) || exists|j: int| releases(longer, wanted[n], j)) && note_at(
        longer,
        wanted[n],
        None,
    ) == note_at(events, wanted[n], None) by {
        if struck.contains(wanted[n]) {
            let q = choose|q: int| 0 <= q < struck.len() && struck[q] == wanted[n];
            assert(note_at(longer, struck[q], None) == note_at(events, struck[q], None));
            if q < at {
                assert(struck2[q] == wanted[n]);
            } else {
                assert(struck2[q - 1] == wanted[n]);
            }
        } else {
            let j = choose|j: int| releases(events, wanted[n], j);
            lemma_note_settled(events, next, wanted[n], j, None);
        }
    }
    assert(onsets(longer, start, end) == wanted);
    assert forall|n: int| 0 <= n < wanted.len() implies struck2.contains(#[trigger] wanted[n])
        || exists|j: int| releases(longer, wanted[n], j) by {
        if wanted[n] == gone {
            assert(releases(longer, wanted[n], events.len() as int));
        }
    }
    assert forall|q: int| 0 <= q < struck2.len() implies {
        &&& 0 <= #[trigger] struck2[q] < longer.len()
        &&& longer[struck2[q]].on()
        &&& longer[struck2[q]].voice() == (open2[q].0, open2[q].1)
        &&& depth(longer, struck2[q], longer.len() as int) == stacked(
            open2,
            longer[struck2[q]].voice(),
            q,
        )
        &&& forall|k: int|
            struck2[q] < k <= longer.len() ==> #[trigger] depth(longer, struck2[q], k) > 0
        &&& if strikes_in(longer[struck2[q]], start, end) {
            open2[q].2 < wanted.len() && wanted[open2[q].2 as int] == struck2[q]
        } else {
            open2[q].2 == usize::MAX
        }
    } by {
        let old = if q < at {
            q
        } else {
            q + 1
        };
        assert(struck2[q] == struck[old]);
        assert(open2[q] == open[old]);
    }
    let before = notes_of(events, start, end, true);
    let expected = if strikes_in(events[gone], start, end) {
        before.update(
            open[at].2 as int,
            Note {
                end: Some(next.frame),
                off_velocity: next.data2,
                ..before[open[at].2 as int]
            },
        )
    } else {
        before
    };
    assert forall|n: int| 0 <= n < wanted.len() implies #[trigger] notes_of(
        longer,
        start,
        end,
        true,
    )[n] == expected[n] by {
        if wanted[n] == gone {
            assert(strikes_in(events[gone], start, end));
            let m = open[at].2 as int;
            assert(wanted[m] == gone);
            assert(n == m) by {
                if n < m {
                    assert(wanted[n] < wanted[m]);
                }
                if m < n {
                    assert(wanted[m] < wanted[n]);
                }
            }
        } else {
            assert(strikes_in(events[gone], start, end) ==> wanted[open[at].2 as int] == gone);
        }
    }
    assert(notes_of(longer, start, end, true) =~= expected);
}

impl MidiRing {
    /// Notes whose onset falls in `[start, end)`.
    ///
    /// Onset decides membership. A note that began before the selection is not in it however far
    /// it rings: including it would put an attack at tick zero that nobody played there.
    ///
    /// A note still sounding at `end` is cut there unless `let_ring`, and one never released at
    /// all gets `end: None` for the caller to place. A rhythmic loop wants clean edges and a pad
    /// wants its tail; neither answer is right for both, which is why it is an argument.
    pub fn notes_in(&self, start: u64, end: u64, let_ring: bool) -> (notes: Vec<Note>)
        requires
            self.wf(),
        ensures
            notes@ == notes_of(self@, start, end, let_ring),
    {
        let events = self.iter();
        // Keyed by channel and key: the same key can be re-struck before its release arrives.
        let mut open: Vec<(u8, u8, usize)> = Vec::new();
        let mut notes: Vec<Note> = Vec::new();
        let ghost mut struck: Seq<int> = Seq::empty();
        // The whole ring is scanned, never stopping at `end`: a release arriving after it is what
        // tells a note that was let go late from one never released at all.
        let total: usize = events.len();
        let mut p: usize = 0;
        assert(events@.take(0) =~= Seq::<Event>::empty());
        assert(notes@ =~= notes_of(events@.take(0), start, end, true));
        while p < total
            invariant
                p <= total,
                total == events@.len(),
                open_voices(events@.take(p as int), start, end, open@, struck),
                notes@ == notes_of(events@.take(p as int), start, end, true),
            decreases total - p,
        {
            let event = events[p];
            let ghost passed = events@.take(p as int);
            let channel: u8 = event.channel();
            assert(events@.take(p + 1) =~= passed.push(event));
            proof {
                lemma_onsets_bound(passed, start, end);
            }
            if event.is_note_on() {
                let mut index: usize = usize::MAX;
                if event.frame >= start && event.frame < end {
                    index = notes.len();
                    notes.push(
                        Note {
                            start: event.frame,
                            end: None,
                            channel,
                            key: event.data1,
                            on_velocity: event.data2,
                            off_velocity: 0,
                        },
                    );
                }
                proof {
                    lemma_strike(passed, event, start, end, open@, struck, index);
                    struck = struck.push(p as int);
                }
                // An onset outside the selection is remembered as open only so that its release
                // does not close somebody else's note.
                open.push((channel, event.data1, index));
            } else if event.is_note_off() {
                match topmost(&open, channel, event.data1) {
                    Some(at) => {
                        proof {
                            lemma_let_go(passed, event, start, end, open@, struck, at as int);
                            struck = struck.remove(at as int);
                        }
                        let index: usize = open[at].2;
                        open.remove(at);
                        if index < notes.len() {
                            let mut note = notes[index];
                            note.end = Some(event.frame);
                            note.off_velocity = event.data2;
                            notes.set(index, note);
                        }
                    },
                    None => {
                        proof {
                            lemma_pass(passed, event, start, end, open@, struck);
                        }
                    },
                }
            } else {
                proof {
                    lemma_pass(passed, event, start, end, open@, struck);
                }
            }
            p = p + 1;
        }
        assert(events@.take(p as int) =~= self@);
        if !let_ring {
            let mut n: usize = 0;
            let ghost uncut = notes@;
            while n < notes.len()
                invariant
                    n <= notes@.len(),
                    notes@.len() == uncut.len(),
                    uncut == notes_of(self@, start, end, true),
                    forall|m: int|
                        0 <= m < n ==> notes@[m] == #[trigger] notes_of(self@, start, end, false)[m],
                    forall|m: int| n <= m < notes@.len() ==> notes@[m] == uncut[m],
                decreases notes@.len() - n,
            {
                let mut note = notes[n];
                proof {
                    let i = onsets(self@, start, end)[n as int];
                    assert(uncut[n as int] == note_at(self@, i, None));
                    assert(notes_of(self@, start, end, false)[n as int] == note_at(
                        self@,
                        i,
                        Some(end),
                    ));
                }
                if let Some(stop) = note.end {
                    if stop > end {
                        note.end = Some(end);
                        notes.set(n, note);
                    }
                }
                n = n + 1;
            }
            assert(notes@ =~= notes_of(self@, start, end, false));
        }
        notes
    }
}

/// The last entry of the open stack on a channel and key.
fn topmost(open: &Vec<(u8, u8, usize)>, channel: u8, key: u8) -> (found: Option<usize>)
    ensures
        match found {
            Some(at) => {
                &&& at < open@.len()
                &&& (open@[at as int].0, open@[at as int].1) == (channel, key)
                &&& forall|q: int|
                    at < q < open@.len() ==> (#[trigger] open@[q].0, open@[q].1) != (channel, key)
            },
            None => forall|q: int|
                0 <= q < open@.len() ==> (#[trigger] open@[q].0, open@[q].1) != (channel, key),
        },
{
    let mut at: usize = open.len();
    while at > 0
        invariant
            at <= open@.len(),
            forall|q: int|
                at <= q < open@.len() ==> (#[trigger] open@[q].0, open@[q].1) != (channel, key),
        decreases at,
    {
        at = at - 1;
        if open[at].0 == channel && open[at].1 == key {
            return Some(at);
        }
    }
    None
}

/// A message of one kind stamped before `at`.
pub open spec fn precedes(event: Event, kind: u8, at: u64) -> bool {
    event.spec_kind() == kind && event.frame < at
}

/// Where each parameter first shows up among the chosen messages, in order.
pub open spec fn firsts<K>(
    events: Seq<Event>,
    chosen: spec_fn(Event) -> bool,
    parameter: spec_fn(Event) -> K,
) -> Seq<int>
    decreases events.len(),
{
    if events.len() == 0 {
        Seq::empty()
    } else {
        let before = events.drop_last();
        let earlier = firsts(before, chosen, parameter);
        let last = events.last();
        if chosen(last) && latest(before, chosen, parameter, parameter(last)) < 0 {
            earlier.push(events.len() - 1)
        } else {
            earlier
        }
    }
}

/// Where the last chosen message that sets `which` stands, or -1 where there is none.
pub open spec fn latest<K>(
    events: Seq<Event>,
    chosen: spec_fn(Event) -> bool,
    parameter: spec_fn(Event) -> K,
    which: K,
) -> int
    decreases events.len(),
{
    if events.len() == 0 {
        -1
    } else if chosen(events.last()) && parameter(events.last()) == which {
        events.len() - 1
    } else {
        latest(events.drop_last(), chosen, parameter, which)
    }
}

/// For each parameter that the chosen messages set, the message that set it last. Parameters come
/// in the order in which they first showed up.
pub open spec fn in_force<K>(
    events: Seq<Event>,
    chosen: spec_fn(Event) -> bool,
    parameter: spec_fn(Event) -> K,
) -> Seq<Event> {
    let order = firsts(events, chosen, parameter);
    Seq::new(
        order.len(),
        |n: int| events[latest(events, chosen, parameter, parameter(events[order[n]]))],
    )
}

/// `latest` is what its name says: the last chosen message that sets the parameter.
pub proof fn lemma_latest<K>(
    events: Seq<Event>,
    chosen: spec_fn(Event) -> bool,
    parameter: spec_fn(Event) -> K,
    which: K,
)
    ensures
        -1 <= latest(events, chosen, parameter, which) < events.len(),
        latest(events, chosen, parameter, which) >= 0 ==> {
            let event = events[latest(events, chosen, parameter, which)];
            chosen(event) && parameter(event) == which
        },
        forall|i: int|
            latest(events, chosen, parameter, which) < i < events.len() ==> !(chosen(
                #[trigger] events[i],
            ) && parameter(events[i]) == which),
    decreases events.len(),
{
    if events.len() > 0 {
        let before = events.drop_last();
        lemma_latest(before, chosen, parameter, which);
        assert forall|i: int|
            latest(events, chosen, parameter, which) < i < events.len() implies !(chosen(
            #[trigger] events[i],
        ) && parameter(events[i]) == which) by {
            if i < before.len() {
                assert(before[i] == events[i]);
            }
        }
    }
}

/// `firsts` points at chosen messages, in order.
proof fn lemma_firsts_in_order<K>(
    events: Seq<Event>,
    chosen: spec_fn(Event) -> bool,
    parameter: spec_fn(Event) -> K,
    order: Seq<int>,
)
    requires
        order == firsts(events, chosen, parameter),
    ensures
        forall|n: int|
            0 <= n < order.len() ==> 0 <= #[trigger] order[n] < events.len() && chosen(
                events[order[n]],
            ),
        forall|n: int, m: int| 0 <= n < m < order.len() ==> order[n] < order[m],
    decreases events.len(),
{
    if events.len() > 0 {
        let before = events.drop_last();
        let earlier = firsts(before, chosen, parameter);
        lemma_firsts_in_order(before, chosen, parameter, earlier);
        assert forall|n: int| 0 <= n < order.len() implies 0 <= #[trigger] order[n] < events.len()
            && chosen(events[order[n]]) by {
            if n < earlier.len() {
                assert(order[n] == earlier[n]);
                assert(before[earlier[n]] == events[earlier[n]]);
            }
        }
    }
}

/// `firsts` names no parameter twice.
pub proof fn lemma_firsts_distinct<K>(
    events: Seq<Event>,
    chosen: spec_fn(Event) -> bool,
    parameter: spec_fn(Event) -> K,
    n: int,
    m: int,
)
    requires
        0 <= n < m < firsts(events, chosen, parameter).len(),
    ensures
        parameter(events[firsts(events, chosen, parameter)[n]]) != parameter(
            events[firsts(events, chosen, parameter)[m]],
        ),
    decreases events.len(),
{
    let before = events.drop_last();
    let earlier = firsts(before, chosen, parameter);
    let order = firsts(events, chosen, parameter);
    lemma_firsts_in_order(before, chosen, parameter, earlier);
    assert(before[earlier[n]] == events[order[n]]);
    if m < earlier.len() {
        lemma_firsts_distinct(before, chosen, parameter, n, m);
        assert(before[earlier[m]] == events[order[m]]);
    } else {
        lemma_latest(before, chosen, parameter, parameter(events.last()));
        assert(chosen(before[earlier[n]]));
    }
}

/// `firsts` names every parameter that a chosen message sets.
pub proof fn lemma_firsts_cover<K>(
    events: Seq<Event>,
    chosen: spec_fn(Event) -> bool,
    parameter: spec_fn(Event) -> K,
    i: int,
) -> (n: int)
    requires
        0 <= i < events.len(),
        chosen(events[i]),
    ensures
        0 <= n < firsts(events, chosen, parameter).len(),
        firsts(events, chosen, parameter)[n] <= i,
        parameter(events[firsts(events, chosen, parameter)[n]]) == parameter(events[i]),
    decreases events.len(),
{
    let before = events.drop_last();
    let earlier = firsts(before, chosen, parameter);
    let was = latest(before, chosen, parameter, parameter(events.last()));
    lemma_latest(before, chosen, parameter, parameter(events.last()));
    lemma_firsts_in_order(before, chosen, parameter, earlier);
    if i < before.len() {
        let n = lemma_firsts_cover(before, chosen, parameter, i);
        assert(before[earlier[n]] == events[earlier[n]]);
        n
    } else if was >= 0 {
        let n = lemma_firsts_cover(before, chosen, parameter, was);
        assert(before[earlier[n]] == events[earlier[n]]);
        n
    } else {
        earlier.len() as int
    }
}

/// Each message in force is a chosen one that sets the parameter it stands for.
proof fn lemma_in_force_parameter<K>(
    events: Seq<Event>,
    chosen: spec_fn(Event) -> bool,
    parameter: spec_fn(Event) -> K,
    n: int,
)
    requires
        0 <= n < in_force(events, chosen, parameter).len(),
    ensures
        parameter(in_force(events, chosen, parameter)[n]) == parameter(
            events[firsts(events, chosen, parameter)[n]],
        ),
{
    let order = firsts(events, chosen, parameter);
    lemma_firsts_in_order(events, chosen, parameter, order);
    assert(chosen(events[order[n]]));
    lemma_latest(events, chosen, parameter, parameter(events[order[n]]));
}

/// A message that is not chosen changes nothing.
proof fn lemma_in_force_skip<K>(
    events: Seq<Event>,
    next: Event,
    chosen: spec_fn(Event) -> bool,
    parameter: spec_fn(Event) -> K,
)
    requires
        !chosen(next),
    ensures
        in_force(events.push(next), chosen, parameter) == in_force(events, chosen, parameter),
{
    let longer = events.push(next);
    let order = firsts(events, chosen, parameter);
    assert(longer.drop_last() =~= events);
    lemma_firsts_in_order(events, chosen, parameter, order);
    let before = in_force(events, chosen, parameter);
    let after = in_force(longer, chosen, parameter);
    assert forall|n: int| 0 <= n < before.len() implies #[trigger] after[n] == before[n] by {
        let which = parameter(events[order[n]]);
        assert(longer[order[n]] == events[order[n]]);
        assert(chosen(events[order[n]]));
        lemma_latest(events, chosen, parameter, which);
    }
    assert(after =~= before);
}

/// A message that sets a parameter anew replaces the one in force.
proof fn lemma_in_force_replace<K>(
    events: Seq<Event>,
    next: Event,
    chosen: spec_fn(Event) -> bool,
    parameter: spec_fn(Event) -> K,
    n: int,
)
    requires
        chosen(next),
        0 <= n < in_force(events, chosen, parameter).len(),
        parameter(in_force(events, chosen, parameter)[n]) == parameter(next),
    ensures
        in_force(events.push(next), chosen, parameter) == in_force(
            events,
            chosen,
            parameter,
        ).update(n, next),
{
    let longer = events.push(next);
    let order = firsts(events, chosen, parameter);
    assert(longer.drop_last() =~= events);
    lemma_firsts_in_order(events, chosen, parameter, order);
    lemma_in_force_parameter(events, chosen, parameter, n);
    lemma_latest(events, chosen, parameter, parameter(next));
    assert(chosen(events[order[n]]));
    assert(firsts(longer, chosen, parameter) == order);
    let before = in_force(events, chosen, parameter);
    let after = in_force(longer, chosen, parameter);
    assert forall|m: int| 0 <= m < before.len() implies #[trigger] after[m] == before.update(
        n,
        next,
    )[m] by {
        let which = parameter(events[order[m]]);
        assert(longer[order[m]] == events[order[m]]);
        assert(chosen(events[order[m]]));
        lemma_latest(events, chosen, parameter, which);
        if m < n {
            lemma_firsts_distinct(events, chosen, parameter, m, n);
        } else if m > n {
            lemma_firsts_distinct(events, chosen, parameter, n, m);
        }
    }
    assert(after =~= before.update(n, next));
}

/// A message that sets a parameter for the first time joins the end of the list.
proof fn lemma_in_force_join<K>(
    events: Seq<Event>,
    next: Event,
    chosen: spec_fn(Event) -> bool,
    parameter: spec_fn(Event) -> K,
)
    requires
        chosen(next),
        forall|n: int|
            0 <= n < in_force(events, chosen, parameter).len() ==> parameter(
                #[trigger] in_force(events, chosen, parameter)[n],
            ) != parameter(next),
    ensures
        in_force(events.push(next), chosen, parameter) == in_force(events, chosen, parameter).push(
            next,
        ),
{
    let longer = events.push(next);
    let order = firsts(events, chosen, parameter);
    let before = in_force(events, chosen, parameter);
    let after = in_force(longer, chosen, parameter);
    assert(longer.drop_last() =~= events);
    lemma_firsts_in_order(events, chosen, parameter, order);
    lemma_latest(events, chosen, parameter, parameter(next));
    let was = latest(events, chosen, parameter, parameter(next));
    if was >= 0 {
        let n = lemma_firsts_cover(events, chosen, parameter, was);
        lemma_in_force_parameter(events, chosen, parameter, n);
        assert(parameter(before[n]) == parameter(next));
    }
    assert(firsts(longer, chosen, parameter) == order.push(events.len() as int));
    assert forall|m: int| 0 <= m < after.len() implies #[trigger] after[m] == before.push(
        next,
    )[m] by {
        if m < before.len() {
            lemma_in_force_parameter(events, chosen, parameter, m);
            assert(parameter(before[m]) != parameter(next));
            assert(longer[order[m]] == events[order[m]]);
            assert(chosen(events[order[m]]));
            lemma_latest(events, chosen, parameter, parameter(events[order[m]]));
        }
    }
    assert(after =~= before.push(next));
}

/// Where frames never go backwards, nothing after the first event at or past `at` counts.
proof fn lemma_in_force_stops<K>(
    events: Seq<Event>,
    stop: int,
    at: u64,
    kind: u8,
    parameter: spec_fn(Event) -> K,
)
    requires
        0 <= stop <= events.len(),
        forall|i: int| stop <= i < events.len() ==> #[trigger] events[i].frame >= at,
    ensures
        in_force(events, |e: Event| precedes(e, kind, at), parameter) == in_force(
            events.take(stop),
            |e: Event| precedes(e, kind, at),
            parameter,
        ),
    decreases events.len() - stop,
{
    let chosen = |e: Event| precedes(e, kind, at);
    if stop < events.len() {
        let shorter = events.drop_last();
        lemma_in_force_stops(shorter, stop, at, kind, parameter);
        lemma_in_force_skip(shorter, events.last(), chosen, parameter);
        assert(shorter.push(events.last()) =~= events);
        assert(shorter.take(stop) =~= events.take(stop));
    } else {
        assert(events.take(stop) =~= events);
    }
}

/// The controllers in force just before `at`, one per channel and controller.
pub open spec fn controls_of(events: Seq<Event>, at: u64) -> Seq<Control> {
    in_force(events, |e: Event| precedes(e, 0xB0, at), |e: Event| e.voice()).map_values(
        |e: Event| Control { channel: e.spec_channel(), controller: e.data1, value: e.data2 },
    )
}

/// A pitch bend is two seven-bit halves, low one first.
pub open spec fn bend_value(event: Event) -> u16 {
    crate::bytes::joined(event.data1, event.data2) as u16
}

/// The pitch bends in force just before `at`, one per channel.
pub open spec fn bends_of(events: Seq<Event>, at: u64) -> Seq<(u8, u16)> {
    in_force(events, |e: Event| precedes(e, 0xE0, at), |e: Event| e.spec_channel()).map_values(
        |e: Event| (e.spec_channel(), bend_value(e)),
    )
}

impl MidiRing {
    /// The controller values in force just before `at`, one per channel and controller.
    ///
    /// The thing everybody forgets. A filter sweep that settled before the selection began leaves
    /// no event inside it, so a naive export produces a clip with the cutoff wide open and the
    /// sustain pedal up. Emitting these at tick zero is what makes a dropped clip sound like what
    /// was played.
    pub fn controls_before(&self, at: u64) -> (controls: Vec<Control>)
        requires
            self.wf(),
        ensures
            controls@ == controls_of(self@, at),
    {
        let events = self.iter();
        let ghost chosen = |e: Event| precedes(e, 0xB0, at);
        let ghost parameter = |e: Event| e.voice();
        let ghost control_of = |e: Event|
            Control { channel: e.spec_channel(), controller: e.data1, value: e.data2 };
        let mut controls: Vec<Control> = Vec::new();
        let mut p: usize = 0;
        assert(events@.take(0) =~= Seq::<Event>::empty());
        assert(controls@ =~= controls_of(events@.take(0), at));
        while p < events.len() && events[p].frame < at
            invariant
                p <= events@.len(),
                controls@ == controls_of(events@.take(p as int), at),
                chosen == (|e: Event| precedes(e, 0xB0, at)),
                parameter == (|e: Event| e.voice()),
                control_of == (|e: Event|
                    Control { channel: e.spec_channel(), controller: e.data1, value: e.data2 }),
            decreases events@.len() - p,
        {
            let event = events[p];
            let ghost passed = events@.take(p as int);
            let ghost before = in_force(passed, chosen, parameter);
            proof {
                assert(events@.take(p + 1) =~= passed.push(event));
            }
            if event.kind() == 0xB0 {
                let control = Control {
                    channel: event.channel(),
                    controller: event.data1,
                    value: event.data2,
                };
                let mut n: usize = 0;
                while n < controls.len() && !(controls[n].channel == control.channel
                    && controls[n].controller == control.controller)
                    invariant
                        n <= controls@.len(),
                        forall|m: int|
                            0 <= m < n ==> !(#[trigger] controls@[m].channel == control.channel
                                && controls@[m].controller == control.controller),
                    decreases controls@.len() - n,
                {
                    n = n + 1;
                }
                assert(forall|m: int|
                    0 <= m < before.len() ==> #[trigger] controls@[m] == control_of(before[m]));
                if n < controls.len() {
                    proof {
                        assert(controls@[n as int] == control_of(before[n as int]));
                        lemma_in_force_replace(passed, event, chosen, parameter, n as int);
                    }
                    controls.set(n, control);
                    assert(controls@ =~= before.update(n as int, event).map_values(control_of));
                } else {
                    proof {
                        assert forall|m: int| 0 <= m < before.len() implies parameter(
                            #[trigger] before[m],
                        ) != parameter(event) by {
                            assert(controls@[m] == control_of(before[m]));
                            assert(!(controls@[m].channel == control.channel
                                && controls@[m].controller == control.controller));
                        }
                        lemma_in_force_join(passed, event, chosen, parameter);
                    }
                    controls.push(control);
                    assert(controls@ =~= before.push(event).map_values(control_of));
                }
            } else {
                proof {
                    lemma_in_force_skip(passed, event, chosen, parameter);
                }
            }
            p = p + 1;
        }
        proof {
            assert forall|i: int| p <= i < events@.len() implies #[trigger] events@[i].frame >= at by {
                assert(self@[p as int].frame <= self@[i].frame);
            }
            lemma_in_force_stops(events@, p as int, at, 0xB0, parameter);
        }
        controls
    }

    /// Pitch bend in force just before `at`, per channel, as a 14-bit value.
    pub fn bends_before(&self, at: u64) -> (bends: Vec<(u8, u16)>)
        requires
            self.wf(),
        ensures
            bends@ == bends_of(self@, at),
    {
        let events = self.iter();
        let ghost chosen = |e: Event| precedes(e, 0xE0, at);
        let ghost parameter = |e: Event| e.spec_channel();
        let ghost bend_of = |e: Event| (e.spec_channel(), bend_value(e));
        let mut bends: Vec<(u8, u16)> = Vec::new();
        let mut p: usize = 0;
        assert(events@.take(0) =~= Seq::<Event>::empty());
        assert(bends@ =~= bends_of(events@.take(0), at));
        while p < events.len() && events[p].frame < at
            invariant
                p <= events@.len(),
                bends@ == bends_of(events@.take(p as int), at),
                chosen == (|e: Event| precedes(e, 0xE0, at)),
                parameter == (|e: Event| e.spec_channel()),
                bend_of == (|e: Event| (e.spec_channel(), bend_value(e))),
            decreases events@.len() - p,
        {
            let event = events[p];
            let ghost passed = events@.take(p as int);
            let ghost before = in_force(passed, chosen, parameter);
            proof {
                assert(events@.take(p + 1) =~= passed.push(event));
            }
            if event.kind() == 0xE0 {
                let channel: u8 = event.channel();
                let value: u16 = join_halves(event.data1, event.data2);
                let mut n: usize = 0;
                while n < bends.len() && bends[n].0 != channel
                    invariant
                        n <= bends@.len(),
                        forall|m: int| 0 <= m < n ==> (#[trigger] bends@[m]).0 != channel,
                    decreases bends@.len() - n,
                {
                    n = n + 1;
                }
                assert(forall|m: int|
                    0 <= m < before.len() ==> #[trigger] bends@[m] == bend_of(before[m]));
                if n < bends.len() {
                    proof {
                        assert(bends@[n as int] == bend_of(before[n as int]));
                        lemma_in_force_replace(passed, event, chosen, parameter, n as int);
                    }
                    bends.set(n, (channel, value));
                    assert(bends@ =~= before.update(n as int, event).map_values(bend_of));
                } else {
                    proof {
                        assert forall|m: int| 0 <= m < before.len() implies parameter(
                            #[trigger] before[m],
                        ) != parameter(event) by {
                            assert(bends@[m] == bend_of(before[m]));
                        }
                        lemma_in_force_join(passed, event, chosen, parameter);
                    }
                    bends.push((channel, value));
                    assert(bends@ =~= before.push(event).map_values(bend_of));
                }
            } else {
                proof {
                    lemma_in_force_skip(passed, event, chosen, parameter);
                }
            }
            p = p + 1;
        }
        proof {
            assert forall|i: int| p <= i < events@.len() implies #[trigger] events@[i].frame >= at by {
                assert(self@[p as int].frame <= self@[i].frame);
            }
            lemma_in_force_stops(events@, p as int, at, 0xE0, parameter);
        }
        bends
    }
}

/// The ring overwrites and keeps the newest: storing event after event into what was kept gives
/// the newest of all the events ever stored.
pub proof fn law_newest_are_kept(all: Seq<Event>, next: Event, capacity: nat)
    requires
        capacity > 0,
    ensures
        newest(newest(all, capacity).push(next), capacity) == newest(all.push(next), capacity),
        newest(all, capacity).len() <= capacity,
{
    assert(newest(newest(all, capacity).push(next), capacity) =~= newest(all.push(next), capacity));
}

/// A ring holds as many events as were ever stored, up to its capacity.
pub proof fn law_what_is_held_is_counted(ring: &MidiRing)
    requires
        ring.wf(),
    ensures
        ring@.len() == held_of(ring.spec_written(), ring.spec_capacity()),
{
}

/// Storing an event gives up the oldest one and no other, and that only where the ring was full. A
/// message that is not captured changes nothing, full or not.
pub proof fn law_only_the_oldest_is_given_up(before: &MidiRing, after: &MidiRing, event: Event)
    requires
        before.wf(),
        pushed(before, after, event),
    ensures
        captured(event.status) ==> {
            let held = held_of(after.spec_written(), after.spec_capacity());
            &&& after.spec_written() == before.spec_written() + 1
            &&& after.spec_capacity() == before.spec_capacity()
            &&& after@ == before@.push(event).skip(before@.len() + 1 - held)
            &&& before.spec_written() < before.spec_capacity() ==> after@ == before@.push(event)
            &&& before.spec_written() >= before.spec_capacity() ==> after@ == before@.push(
                event,
            ).drop_first()
        },
        !captured(event.status) ==> *after == *before,
{
    law_what_is_held_is_counted(before);
    law_what_is_held_is_counted(after);
    if captured(event.status) {
        let held = held_of(after.spec_written(), after.spec_capacity());
        assert(after@ =~= before@.push(event).skip(before@.len() + 1 - held));
        if before.spec_written() >= before.spec_capacity() {
            assert(after@ =~= before@.push(event).drop_first());
        }
    }
}

/// Onset decides membership: a note is listed exactly where it was struck inside the selection.
pub proof fn law_onset_decides_membership(
    events: Seq<Event>,
    start: u64,
    end: u64,
    let_ring: bool,
    i: int,
)
    requires
        0 <= i < events.len(),
    ensures
        onsets(events, start, end).contains(i) <==> strikes_in(events[i], start, end),
        forall|n: int|
            0 <= n < notes_of(events, start, end, let_ring).len() ==> start <= (
            #[trigger] notes_of(events, start, end, let_ring)[n]).start < end,
    decreases events.len(),
{
    lemma_onsets_bound(events, start, end);
    let order = onsets(events, start, end);
    assert forall|n: int| 0 <= n < order.len() implies start <= (#[trigger] notes_of(
        events,
        start,
        end,
        let_ring,
    )[n]).start < end by {
        assert(strikes_in(events[order[n]], start, end));
    }
    if strikes_in(events[i], start, end) {
        let before = events.drop_last();
        if i < before.len() {
            assert(before[i] == events[i]);
            law_onset_decides_membership(before, start, end, let_ring, i);
            let n = choose|n: int|
                0 <= n < onsets(before, start, end).len() && onsets(before, start, end)[n] == i;
            assert(order[n] == i);
        } else {
            assert(order[order.len() - 1] == i);
        }
    }
}

/// A note is let go by a release of its own channel and key, later than its strike and never
/// before it in time.
pub proof fn law_release_is_of_the_voice(events: Seq<Event>, i: int, j: int)
    requires
        in_frame_order(events),
        releases(events, i, j),
    ensures
        events[j].off(),
        events[j].voice() == events[i].voice(),
        events[i].frame <= events[j].frame,
{
    assert(depth(events, i, j) > 0);
}

/// How far two strikes of one voice are apart in depth does not change once both are held.
proof fn lemma_depth_gap(events: Seq<Event>, i: int, k: int, j: int)
    requires
        0 <= i < k < j <= events.len(),
        events[k].voice() == events[i].voice(),
        events[k].on(),
    ensures
        depth(events, i, j) == depth(events, k, j) + depth(events, i, k),
    decreases j,
{
    if j > k + 1 {
        lemma_depth_gap(events, i, k, j - 1);
    }
}

/// One release closes one note: no event lets go of two strikes.
pub proof fn law_release_closes_one_note(events: Seq<Event>, i: int, k: int, j: int)
    requires
        events[i].on(),
        events[k].on(),
        releases(events, i, j),
        releases(events, k, j),
    ensures
        i == k,
{
    assert(depth(events, i, j) > 0);
    assert(depth(events, k, j) > 0);
    if i < k {
        lemma_depth_gap(events, i, k, j);
        assert(depth(events, i, k) > 0);
    } else if k < i {
        lemma_depth_gap(events, k, i, j);
        assert(depth(events, k, i) > 0);
    }
}

/// A note still sounding at the edge is cut there: unless it is let ring, no note ends past the
/// end of the selection.
pub proof fn law_cut_at_the_edge(events: Seq<Event>, start: u64, end: u64, n: int)
    requires
        0 <= n < notes_of(events, start, end, false).len(),
    ensures
        notes_of(events, start, end, false)[n].end matches Some(stop) ==> stop <= end,
        notes_of(events, start, end, true)[n].end is Some <==> notes_of(
            events,
            start,
            end,
            false,
        )[n].end is Some,
{
    let i = onsets(events, start, end)[n];
    assert(notes_of(events, start, end, false)[n] == note_at(events, i, Some(end)));
    assert(notes_of(events, start, end, true)[n] == note_at(events, i, None));
}

/// The snapshot holds one value per parameter, and it is the latest: for each entry no later
/// chosen message sets the same parameter, and no two entries stand for the same one.
pub proof fn law_snapshot_is_the_latest_of_each<K>(
    events: Seq<Event>,
    chosen: spec_fn(Event) -> bool,
    parameter: spec_fn(Event) -> K,
    n: int,
) -> (at: int)
    requires
        0 <= n < in_force(events, chosen, parameter).len(),
    ensures
        0 <= at < events.len(),
        chosen(events[at]),
        in_force(events, chosen, parameter)[n] == events[at],
        forall|i: int|
            at < i < events.len() && chosen(#[trigger] events[i]) ==> parameter(events[i])
                != parameter(events[at]),
        forall|m: int|
            0 <= m < in_force(events, chosen, parameter).len() && m != n ==> parameter(
                #[trigger] in_force(events, chosen, parameter)[m],
            ) != parameter(events[at]),
{
    let order = firsts(events, chosen, parameter);
    let which = parameter(events[order[n]]);
    lemma_firsts_in_order(events, chosen, parameter, order);
    assert(chosen(events[order[n]]));
    lemma_latest(events, chosen, parameter, which);
    lemma_in_force_parameter(events, chosen, parameter, n);
    assert forall|m: int|
        0 <= m < in_force(events, chosen, parameter).len() && m != n implies parameter(
        #[trigger] in_force(events, chosen, parameter)[m],
    ) != which by {
        lemma_in_force_parameter(events, chosen, parameter, m);
        if m < n {
            lemma_firsts_distinct(events, chosen, parameter, m, n);
        } else {
            lemma_firsts_distinct(events, chosen, parameter, n, m);
        }
    }
    latest(events, chosen, parameter, which)
}

} // verus!
