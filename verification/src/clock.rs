//! Transport, tempo estimation, and the rules that decide whether a block is captured at all and
//! what has to be laid down in front of it when it is.
//!
//! A plugin host hands over an exact position and a time signature; MIDI clock is a metronome that
//! has never heard of bars. [`Transport`] is the shape that every source reduces to, and nothing
//! downstream of [`CaptureClock`] knows which one is plugged in.
//!
//! A transport that stops and starts again has almost certainly moved, and audio captured either
//! side of that is adjacent in the ring while being bars apart in the song. That is a splice:
//! [`CaptureClock`] detects it and says how much dead time to lay down.
use crate::bytes::join_halves;
use crate::tempo::{Meter, Segment, TempoMap};
use vstd::prelude::*;

verus! {

/// What a clock source reports, once per audio block.
#[derive(Clone, Copy, Debug, PartialEq)]
pub struct Transport<N> {
    /// Whether the host is rolling. Capture follows this, so `false` means the write head freezes.
    pub playing: bool,
    /// Quarter notes per minute.
    pub bpm: N,
    pub meter: Meter,
    /// True during an offline bounce, which runs far faster than realtime with the transport
    /// reporting that it plays: capturing it would overwrite the take.
    pub offline: bool,
    /// Where the playhead is, in quarter notes from wherever the source counts from. `None` from
    /// a source that has no idea.
    pub position: Option<N>,
}

impl<N> Transport<N> {
    pub fn stopped(bpm: N, meter: Meter) -> (transport: Transport<N>)
        ensures
            transport == (Transport { playing: false, bpm, meter, offline: false, position: None }),
    {
        Transport { playing: false, bpm, meter, offline: false, position: None }
    }

    pub fn rolling(bpm: N, meter: Meter) -> (transport: Transport<N>)
        ensures
            transport == (Transport { playing: true, bpm, meter, offline: false, position: None }),
    {
        Transport { playing: true, bpm, meter, offline: false, position: None }
    }

    /// Rolling, and able to say where. `quarters` counts from the top of the song.
    pub fn at(bpm: N, meter: Meter, quarters: N) -> (transport: Transport<N>)
        ensures
            transport == (Transport {
                playing: true,
                bpm,
                meter,
                offline: false,
                position: Some(quarters),
            }),
    {
        Transport { playing: true, bpm, meter, offline: false, position: Some(quarters) }
    }
}

/// Anything that can say what time it is. Polled once per block by the capture loop.
pub trait ClockSource<N> {
    fn poll(&mut self) -> Transport<N>;
}

/// How much of one block [`CaptureClock::advance`] decided to take, and what has to be laid down
/// in front of it.
#[derive(Clone, Copy, Debug, PartialEq, Eq, Structural)]
pub struct Advance {
    /// Frames of silence to write to the ring before the block, to bring the grid back into phase
    /// with the song.
    pub seam: u64,
    /// How many of the block's frames to capture: all of them, or none.
    pub frames: usize,
}

impl Default for Advance {
    fn default() -> (advance: Advance)
        ensures
            advance == (Advance { seam: 0, frames: 0 }),
    {
        Advance { seam: 0, frames: 0 }
    }
}

/// What the arithmetic of the caller's number type says of one block, before it is decided on.
#[derive(Clone, Copy, Debug)]
pub struct Readings<N> {
    /// The reported tempo is the one in force.
    pub same_bpm: bool,
    /// Quarter notes elapsed at the write head.
    pub quarters: N,
    /// Bars elapsed at the write head.
    pub bars: N,
    /// The reported position, where there is one, is too far from the expected one to be jitter.
    pub jumped: bool,
    /// Where bar one has to be put for the write head to fall on the song's fraction of a bar.
    pub bar_phase: N,
    /// Frames to the next position that falls on the song's fraction of a bar.
    pub shift: u64,
    /// That position is no more than this block away.
    pub nearly_there: bool,
    /// The last such position was no more than this block ago.
    pub just_past: bool,
    /// Where the playhead will be after this block if the transport simply rolls on.
    pub onward: Option<N>,
}

/// Owns the tempo map and decides how much of each block reaches the ring.
///
/// The counter it maintains is capture frames: elapsed transport time, monotonic, and unaware that
/// a locate ever happened.
///
/// At each splice a seam is inserted: dead frames, placed so that the first frame of resumed audio
/// lands on the same fraction of a bar that the song is on. The clock cannot lay the silence down
/// itself, since it does not own the ring, so [`Advance::seam`] hands that to the caller, who has
/// to write it before the block.
#[derive(Debug)]
pub struct CaptureClock<N> {
    map: TempoMap<N>,
    captured: u64,
    playing: bool,
    /// Whether the previous block reached the ring.
    capturing: bool,
    /// Where the playhead should be at the start of the next block if the transport rolls on.
    expected: Option<N>,
    /// Dead frames inserted at splices.
    seam_frames: u64,
    /// Blocks refused because the host was rendering offline.
    offline_blocks: u64,
}

/// The state of a capture clock.
#[verifier::ext_equal]
pub struct Captured<N> {
    pub sample_rate: u32,
    pub segments: Seq<Segment<N>>,
    pub bar_phase: N,
    pub captured: nat,
    pub playing: bool,
    pub capturing: bool,
    pub expected: Option<N>,
    pub seam_frames: nat,
    pub offline_blocks: nat,
}

/// The transport jumped rather than rolled on: a locate, a loop wrap, or a host coming back from
/// somewhere else. Only answerable when the source reports a position and reported one last block.
pub open spec fn located<N>(
    clock: Captured<N>,
    transport: Transport<N>,
    readings: Readings<N>,
) -> bool {
    transport.position is Some && clock.expected is Some && readings.jumped
}

/// A block begins a new run of audio: the one before it was not captured, or the transport jumped.
pub open spec fn spliced<N>(
    clock: Captured<N>,
    transport: Transport<N>,
    readings: Readings<N>,
) -> bool {
    !clock.capturing || located(clock, transport, readings)
}

/// Nothing finer than a block can be placed at all, so a block that near to its place is on it. One
/// that is a hair late rather than most of a bar early is the same seen from the other side.
pub open spec fn in_phase<N>(readings: Readings<N>) -> bool {
    readings.nearly_there || readings.just_past
}

/// How much silence goes in front of a captured block: none where the transport rolls on, none in
/// front of the first block of all, none where the block is in phase, and otherwise as much as
/// brings it to the next position that is.
pub open spec fn seam_of<N>(
    clock: Captured<N>,
    transport: Transport<N>,
    readings: Readings<N>,
) -> u64 {
    if spliced(clock, transport, readings) && clock.captured > 0 && !in_phase(readings) {
        readings.shift
    } else {
        0
    }
}

/// What a block does to a capture clock.
pub open spec fn advanced<N>(
    clock: Captured<N>,
    transport: Transport<N>,
    frames: usize,
    readings: Readings<N>,
) -> (Captured<N>, Advance) {
    let nothing = Advance { seam: 0, frames: 0 };
    if transport.offline {
        (
            Captured {
                offline_blocks: clock.offline_blocks + 1,
                playing: transport.playing,
                capturing: false,
                ..clock
            },
            nothing,
        )
    } else if !transport.playing {
        (Captured { playing: false, capturing: false, ..clock }, nothing)
    } else if frames == 0 {
        (Captured { playing: true, ..clock }, nothing)
    } else {
        let seam = seam_of(clock, transport, readings);
        (
            Captured {
                sample_rate: clock.sample_rate,
                segments: crate::tempo::changed(
                    clock.segments,
                    Segment {
                        frame: clock.captured as u64,
                        bpm: transport.bpm,
                        meter: transport.meter,
                        quarters: readings.quarters,
                        bars: readings.bars,
                    },
                    readings.same_bpm,
                ),
                bar_phase: if spliced(clock, transport, readings) && clock.captured == 0 {
                    readings.bar_phase
                } else {
                    clock.bar_phase
                },
                captured: clock.captured + seam as nat + frames as nat,
                playing: true,
                capturing: true,
                expected: readings.onward,
                seam_frames: clock.seam_frames + seam as nat,
                offline_blocks: clock.offline_blocks,
            },
            Advance { seam, frames },
        )
    }
}

/// The counters of a capture clock have room for what they count.
pub open spec fn counted<N>(clock: Captured<N>) -> bool {
    clock.captured <= u64::MAX && clock.offline_blocks <= u64::MAX
}

impl<N> View for CaptureClock<N> {
    type V = Captured<N>;

    closed spec fn view(&self) -> Captured<N> {
        Captured {
            sample_rate: self.map.spec_sample_rate(),
            segments: self.map@,
            bar_phase: self.map.spec_bar_phase(),
            captured: self.captured as nat,
            playing: self.playing,
            capturing: self.capturing,
            expected: self.expected,
            seam_frames: self.seam_frames as nat,
            offline_blocks: self.offline_blocks as nat,
        }
    }
}

impl<N: Copy> CaptureClock<N> {
    /// The tempo map is in order and does not run ahead of the capture, and no more dead frames
    /// were laid down than were captured.
    pub open spec fn wf(&self) -> bool {
        &&& crate::tempo::ordered(self@.segments)
        &&& self@.segments.last().frame <= self@.captured
        &&& self@.seam_frames <= self@.captured
    }

    pub fn new(sample_rate: u32, bpm: N, meter: Meter, nothing: N) -> (clock: CaptureClock<N>)
        requires
            sample_rate > 0,
        ensures
            clock.wf(),
            clock@ == (Captured {
                sample_rate,
                segments: seq![
                    Segment { frame: 0, bpm, meter, quarters: nothing, bars: nothing },
                ],
                bar_phase: nothing,
                captured: 0,
                playing: false,
                capturing: false,
                expected: None,
                seam_frames: 0,
                offline_blocks: 0,
            }),
    {
        CaptureClock {
            map: TempoMap::new(sample_rate, bpm, meter, nothing),
            captured: 0,
            playing: false,
            capturing: false,
            expected: None,
            seam_frames: 0,
            offline_blocks: 0,
        }
    }

    pub fn map(&self) -> (map: &TempoMap<N>)
        ensures
            map@ == self@.segments,
            map.spec_sample_rate() == self@.sample_rate,
            map.spec_bar_phase() == self@.bar_phase,
    {
        &self.map
    }

    /// Places bar one by hand: the one thing about the map that reaches in from outside.
    pub fn set_bar_phase(&mut self, phase: N)
        ensures
            final(self)@ == (Captured { bar_phase: phase, ..old(self)@ }),
    {
        self.map.set_bar_phase(phase);
    }

    /// Frames captured so far: the ring's absolute frame index, and the grid's axis.
    pub fn captured(&self) -> (captured: u64)
        ensures
            captured == self@.captured,
    {
        self.captured
    }

    pub fn is_playing(&self) -> (playing: bool)
        ensures
            playing == self@.playing,
    {
        self.playing
    }

    /// Whether the last block reached the ring. Differs from [`is_playing`](Self::is_playing)
    /// during an export, which reports rolling and captures nothing.
    pub fn is_capturing(&self) -> (capturing: bool)
        ensures
            capturing == self@.capturing,
    {
        self.capturing
    }

    pub fn offline_blocks(&self) -> (blocks: u64)
        ensures
            blocks == self@.offline_blocks,
    {
        self.offline_blocks
    }

    /// Dead frames laid down at splices, over the life of the clock.
    pub fn seam_frames(&self) -> (frames: u64)
        ensures
            frames == self@.seam_frames,
    {
        self.seam_frames
    }

    /// Where the playhead should be at the start of the next block.
    pub fn expected(&self) -> (expected: Option<N>)
        ensures
            expected == self@.expected,
    {
        self.expected
    }

    /// Call once per block, before writing to the ring. Says how many of `frames` to capture, all
    /// of them or none, and how much silence to lay down in front of them.
    ///
    /// A block with nothing in it is not a stop, it is nothing at all: calling it a splice would
    /// spend most of a bar of ring re-phasing a transport that never moved. The change of tempo is
    /// recorded at the frame that it takes effect, which is the start of this block, ahead of the
    /// seam. Where nothing is captured yet, no audio holds the grid in place: the grid moves
    /// instead of the audio.
    pub fn advance(
        &mut self,
        transport: &Transport<N>,
        frames: usize,
        readings: &Readings<N>,
    ) -> (advance: Advance)
        requires
            old(self).wf(),
            counted(advanced(old(self)@, *transport, frames, *readings).0),
        ensures
            final(self).wf(),
            (final(self)@, advance) == advanced(old(self)@, *transport, frames, *readings),
    {
        if transport.offline {
            self.offline_blocks = self.offline_blocks + 1;
            self.playing = transport.playing;
            // An export is a gap in the take like any other, and the passage after it is somewhere
            // else entirely. Saying so here is what makes the resumption realign.
            self.capturing = false;
            return Advance { seam: 0, frames: 0 };
        }
        self.playing = transport.playing;
        if !transport.playing {
            self.capturing = false;
            return Advance { seam: 0, frames: 0 };
        }
        if frames == 0 {
            return Advance { seam: 0, frames: 0 };
        }
        self.map.push(
            Segment {
                frame: self.captured,
                bpm: transport.bpm,
                meter: transport.meter,
                quarters: readings.quarters,
                bars: readings.bars,
            },
            readings.same_bpm,
        );
        let mut seam: u64 = 0;
        if !self.capturing || self.located(transport, readings) {
            seam = self.realign(readings);
        }
        self.captured = self.captured + seam + frames as u64;
        self.seam_frames = self.seam_frames + seam;
        self.capturing = true;
        self.expected = readings.onward;
        Advance { seam, frames }
    }

    /// Whether the transport jumped rather than rolled on. A source that says nothing about its
    /// position never triggers this; the stops are caught without it.
    fn located(&self, transport: &Transport<N>, readings: &Readings<N>) -> (located: bool)
        ensures
            located == crate::clock::located(self@, *transport, *readings),
    {
        transport.position.is_some() && self.expected.is_some() && readings.jumped
    }

    /// Frames of silence that put the next captured frame on the same fraction of a bar that the
    /// song is on. Where nothing is captured yet, no audio holds the grid in place, and the grid
    /// moves instead.
    fn realign(&mut self, readings: &Readings<N>) -> (seam: u64)
        ensures
            seam == if old(self)@.captured > 0 && !in_phase(*readings) {
                readings.shift
            } else {
                0
            },
            final(self)@ == (Captured {
                bar_phase: if old(self)@.captured == 0 {
                    readings.bar_phase
                } else {
                    old(self)@.bar_phase
                },
                ..old(self)@
            }),
    {
        if self.captured == 0 {
            self.map.set_bar_phase(readings.bar_phase);
            return 0;
        }
        if readings.nearly_there || readings.just_past {
            return 0;
        }
        readings.shift
    }
}

/// Capture frames are monotonic, and say exactly what was taken: a block adds its seam and its
/// frames, and nothing else does.
pub proof fn law_capture_is_monotonic<N>(
    clock: Captured<N>,
    transport: Transport<N>,
    frames: usize,
    readings: Readings<N>,
)
    ensures
        ({
            let (after, advance) = advanced(clock, transport, frames, readings);
            &&& after.captured == clock.captured + advance.seam as nat + advance.frames as nat
            &&& after.seam_frames == clock.seam_frames + advance.seam as nat
            &&& advance.frames == 0 || advance.frames == frames
            &&& advance.frames == 0 ==> advance.seam == 0
        }),
{
}

/// A stopped transport captures nothing, and neither does an offline render even though it says
/// that it plays. Both leave the tempo map alone, and the next captured block is a splice.
pub proof fn law_refused_blocks_capture_nothing<N>(
    clock: Captured<N>,
    transport: Transport<N>,
    frames: usize,
    readings: Readings<N>,
)
    requires
        transport.offline || !transport.playing,
    ensures
        ({
            let (after, advance) = advanced(clock, transport, frames, readings);
            &&& advance == Advance { seam: 0, frames: 0 }
            &&& after.captured == clock.captured
            &&& after.segments == clock.segments
            &&& after.bar_phase == clock.bar_phase
            &&& forall|t: Transport<N>, r: Readings<N>| spliced(after, t, r)
            &&& after.offline_blocks == clock.offline_blocks + if transport.offline {
                1nat
            } else {
                0nat
            }
        }),
{
}

/// An empty block is not a splice: it changes nothing that the next block is decided by.
pub proof fn law_an_empty_block_is_not_a_splice<N>(
    clock: Captured<N>,
    transport: Transport<N>,
    readings: Readings<N>,
)
    requires
        transport.playing,
        !transport.offline,
    ensures
        ({
            let (after, advance) = advanced(clock, transport, 0, readings);
            &&& advance == Advance { seam: 0, frames: 0 }
            &&& after == Captured { playing: true, ..clock }
            &&& forall|t: Transport<N>, r: Readings<N>|
                spliced(after, t, r) == #[trigger] spliced(clock, t, r)
        }),
{
}

/// The first press moves the grid rather than the audio, and a transport that rolls on costs
/// nothing: neither spends any ring.
pub proof fn law_only_a_splice_spends_ring<N>(
    clock: Captured<N>,
    transport: Transport<N>,
    frames: usize,
    readings: Readings<N>,
)
    requires
        clock.captured == 0 || (clock.capturing && !located(clock, transport, readings)),
    ensures
        advanced(clock, transport, frames, readings).1.seam == 0,
{
}

/// Pausing costs nothing: a host that resumes in phase with the bars spends no ring, wherever it
/// stopped in between.
pub proof fn law_resuming_in_phase_costs_nothing<N>(
    clock: Captured<N>,
    transport: Transport<N>,
    frames: usize,
    readings: Readings<N>,
)
    requires
        in_phase(readings),
    ensures
        advanced(clock, transport, frames, readings).1.seam == 0,
{
}

/// A correction is always forwards, to the next aligned position, and all of it: a restart that is
/// out of phase inserts exactly what is missing.
pub proof fn law_a_restart_out_of_phase_is_brought_into_phase<N>(
    clock: Captured<N>,
    transport: Transport<N>,
    frames: usize,
    readings: Readings<N>,
)
    requires
        transport.playing,
        !transport.offline,
        frames > 0,
        clock.captured > 0,
        spliced(clock, transport, readings),
        !in_phase(readings),
    ensures
        advanced(clock, transport, frames, readings).1 == (Advance {
            seam: readings.shift,
            frames,
        }),
        advanced(clock, transport, frames, readings).0.captured - frames == clock.captured
            + readings.shift,
{
}

/// A source that reports no position never seems to have jumped.
pub proof fn law_a_source_without_a_position_never_jumps<N>(
    clock: Captured<N>,
    transport: Transport<N>,
    readings: Readings<N>,
)
    requires
        transport.position is None || clock.expected is None,
    ensures
        spliced(clock, transport, readings) == !clock.capturing,
{
}

/// A held tempo does not grow the map.
pub proof fn law_a_held_tempo_does_not_grow_the_map<N>(
    clock: Captured<N>,
    transport: Transport<N>,
    frames: usize,
    readings: Readings<N>,
)
    requires
        readings.same_bpm,
        clock.segments.len() > 0,
        transport.meter == clock.segments.last().meter,
    ensures
        advanced(clock, transport, frames, readings).0.segments == clock.segments,
{
}

/// The MIDI messages that carry transport.
#[derive(Clone, Copy, Debug, PartialEq, Eq, Structural)]
pub enum ClockMessage {
    /// `0xF8`. Twenty-four of these to the quarter note.
    Tick,
    /// `0xFA`. Rewind to zero and roll.
    Start,
    /// `0xFB`. Roll from wherever the last song position put us.
    Continue,
    /// `0xFC`.
    Stop,
    /// `0xF2`, in sixteenth notes from the top of the song. The only way that MIDI clock can
    /// express a position; plenty of hosts never send it at all.
    SongPosition(u16),
}

/// What a packet says of the transport: its first byte decides, and a song position is two
/// seven-bit halves, low one first.
pub open spec fn decoded(data: Seq<u8>) -> Option<ClockMessage> {
    if data.len() == 0 {
        None
    } else if data[0] == 0xF8 {
        Some(ClockMessage::Tick)
    } else if data[0] == 0xFA {
        Some(ClockMessage::Start)
    } else if data[0] == 0xFB {
        Some(ClockMessage::Continue)
    } else if data[0] == 0xFC {
        Some(ClockMessage::Stop)
    } else if data[0] == 0xF2 && data.len() >= 3 {
        Some(ClockMessage::SongPosition(crate::bytes::joined(data[1], data[2]) as u16))
    } else {
        None
    }
}

/// Decodes one MIDI packet, or `None` for anything that is not transport.
pub fn decode_clock(data: &[u8]) -> (message: Option<ClockMessage>)
    ensures
        message == decoded(data@),
{
    if data.len() == 0 {
        return None;
    }
    let status: u8 = data[0];
    if status == 0xF8 {
        Some(ClockMessage::Tick)
    } else if status == 0xFA {
        Some(ClockMessage::Start)
    } else if status == 0xFB {
        Some(ClockMessage::Continue)
    } else if status == 0xFC {
        Some(ClockMessage::Stop)
    } else if status == 0xF2 && data.len() >= 3 {
        Some(ClockMessage::SongPosition(join_halves(data[1], data[2])))
    } else {
        None
    }
}

/// How many recent tick timestamps the estimator holds. Twenty-four is one quarter note, which is
/// both a natural musical unit and enough lever arm to average the noise down usefully.
pub const WINDOW: usize = 24;

/// Estimates tempo from a MIDI clock stream: a line through the last twenty-four timestamps.
///
/// Averaging intervals would be biased at every tempo whose tick interval is not a whole number of
/// samples. A line has sub-sample resolution, and gaps are caught before the fit by a plausibility
/// gate, because a gap is not a tempo.
///
/// The estimator works in samples. It keeps the points that the line is fitted through; the fit
/// itself is done in the number type of the tempo.
#[derive(Clone, Debug)]
pub struct ClockPll<N> {
    sample_rate: u32,
    /// Which tick each stamp is, and the stamp, oldest first. A dropped tick leaves a hole in the
    /// first of the two, so that the gap is not read as a slower tempo.
    window: Vec<(u64, u64)>,
    index: u64,
    last_tick: Option<u64>,
    bpm: N,
    /// Ticks seen since the last start or continue.
    ticks: u64,
    playing: bool,
    /// How many intervals were rejected as impossible.
    rejected: u64,
}

/// The state of an estimator.
#[verifier::ext_equal]
pub struct Estimate<N> {
    pub window: Seq<(u64, u64)>,
    pub index: nat,
    pub last_tick: Option<u64>,
    pub bpm: N,
    pub ticks: nat,
    pub playing: bool,
    pub rejected: nat,
}

/// An interval between two ticks that a tempo between 20 and 999 can have, with 24 ticks to the
/// quarter note. Anything else is a gap: the stream stopping and restarting, or a cable going in.
pub open spec fn plausible(interval: int, sample_rate: u32) -> bool {
    60 * sample_rate <= interval * 999 * 24 && interval * 20 * 24 <= 60 * sample_rate
}

/// How far apart two stamps are.
pub open spec fn interval_of(previous: u64, at: u64) -> int {
    if at >= previous {
        at - previous
    } else {
        0
    }
}

/// How many ticks an interval spans. More than one is believed only of a settled window, only where
/// the interval is close to a whole number of ticks, and only up to eight.
pub open spec fn steps_of(nearest: u64, close: bool, settled: bool) -> nat {
    if settled && close && 2 <= nearest <= 8 {
        nearest as nat
    } else {
        1
    }
}

/// The newest `WINDOW` points.
pub open spec fn windowed(points: Seq<(u64, u64)>) -> Seq<(u64, u64)> {
    if points.len() > WINDOW {
        points.drop_first()
    } else {
        points
    }
}

/// What a message does to an estimator.
pub open spec fn fed<N>(
    state: Estimate<N>,
    sample_rate: u32,
    message: ClockMessage,
    at: u64,
    nearest: u64,
    close: bool,
) -> Estimate<N> {
    match message {
        ClockMessage::Tick => {
            let gap = state.last_tick matches Some(previous) && !plausible(
                interval_of(previous, at),
                sample_rate,
            );
            let window = if gap {
                Seq::empty()
            } else {
                state.window
            };
            let steps = if state.last_tick is Some && !gap {
                steps_of(nearest, close, state.window.len() >= 3)
            } else {
                1
            };
            let index = steps + if gap {
                0
            } else {
                state.index
            };
            Estimate {
                window: windowed(window.push((index as u64, at))),
                index,
                last_tick: Some(at),
                bpm: state.bpm,
                ticks: state.ticks + if state.playing {
                    1nat
                } else {
                    0nat
                },
                playing: state.playing,
                rejected: state.rejected + if gap {
                    1nat
                } else {
                    0nat
                },
            }
        },
        ClockMessage::Start => Estimate { playing: true, ticks: 0, last_tick: None, ..state },
        ClockMessage::Continue => Estimate { playing: true, last_tick: None, ..state },
        ClockMessage::Stop => Estimate { playing: false, last_tick: None, ..state },
        ClockMessage::SongPosition(sixteenths) => Estimate {
            ticks: sixteenths as nat * 6,
            ..state
        },
    }
}

/// The counters of an estimator have room for what they count.
pub open spec fn countable<N>(state: Estimate<N>) -> bool {
    &&& state.index <= u64::MAX
    &&& state.ticks <= u64::MAX
    &&& state.rejected <= u64::MAX
}

impl<N> View for ClockPll<N> {
    type V = Estimate<N>;

    closed spec fn view(&self) -> Estimate<N> {
        Estimate {
            window: self.window@,
            index: self.index as nat,
            last_tick: self.last_tick,
            bpm: self.bpm,
            ticks: self.ticks as nat,
            playing: self.playing,
            rejected: self.rejected as nat,
        }
    }
}

/// The points of a window are different ticks, in order, up to the newest index.
pub open spec fn window_in_order(window: Seq<(u64, u64)>, index: nat) -> bool {
    &&& window.len() <= WINDOW
    &&& forall|i: int, j: int| 0 <= i < j < window.len() ==> window[i].0 < window[j].0
    &&& forall|i: int| 0 <= i < window.len() ==> (#[trigger] window[i]).0 <= index
}

impl<N: Copy> ClockPll<N> {
    pub closed spec fn spec_sample_rate(&self) -> u32 {
        self.sample_rate
    }

    pub open spec fn wf(&self) -> bool {
        window_in_order(self@.window, self@.index)
    }

    pub fn new(sample_rate: u32, initial_bpm: N) -> (pll: ClockPll<N>)
        ensures
            pll.wf(),
            pll.spec_sample_rate() == sample_rate,
            pll@ == (Estimate {
                window: Seq::empty(),
                index: 0,
                last_tick: None,
                bpm: initial_bpm,
                ticks: 0,
                playing: false,
                rejected: 0,
            }),
    {
        ClockPll {
            sample_rate,
            window: Vec::new(),
            index: 0,
            last_tick: None,
            bpm: initial_bpm,
            ticks: 0,
            playing: false,
            rejected: 0,
        }
    }

    pub fn bpm(&self) -> (bpm: N)
        ensures
            bpm == self@.bpm,
    {
        self.bpm
    }

    /// Takes the tempo that a fit through the window came to.
    pub fn set_bpm(&mut self, bpm: N)
        ensures
            final(self)@ == (Estimate { bpm, ..old(self)@ }),
            final(self).spec_sample_rate() == old(self).spec_sample_rate(),
    {
        self.bpm = bpm;
    }

    pub fn is_playing(&self) -> (playing: bool)
        ensures
            playing == self@.playing,
    {
        self.playing
    }

    pub fn rejected(&self) -> (rejected: u64)
        ensures
            rejected == self@.rejected,
    {
        self.rejected
    }

    /// Ticks since the last start or continue: the position, in the only unit MIDI clock has.
    pub fn ticks(&self) -> (ticks: u64)
        ensures
            ticks == self@.ticks,
    {
        self.ticks
    }

    /// The frame of the last tick of an unbroken run.
    pub fn last_tick(&self) -> (at: Option<u64>)
        ensures
            at == self@.last_tick,
    {
        self.last_tick
    }

    /// Whether the window holds enough points for a fit. Below three the estimate is still the
    /// initial guess.
    pub fn settled(&self) -> (settled: bool)
        ensures
            settled == (self@.window.len() >= 3),
    {
        self.window.len() >= 3
    }

    /// The points to fit a line through: which tick, and when, oldest first.
    pub fn window(&self) -> (points: &Vec<(u64, u64)>)
        ensures
            points@ == self@.window,
    {
        &self.window
    }

    /// Feeds one message, stamped with the frame that it arrived at.
    ///
    /// `nearest` is the whole number of ticks nearest to what the interval since the last one
    /// comes to at the tempo so far, and `close` says that it is close to it. A tick can go
    /// missing without the stream being broken, and treating that interval as one tick would read
    /// as a tempo drop of exactly a half; a ratio that is not close to a whole number, or that is
    /// above eight, is jitter or a tempo change, and one tick is the safer reading of both.
    pub fn feed(&mut self, message: ClockMessage, at_frame: u64, nearest: u64, close: bool)
        requires
            old(self).wf(),
            countable(
                fed(
                    old(self)@,
                    old(self).spec_sample_rate(),
                    message,
                    at_frame,
                    nearest,
                    close,
                ),
            ),
        ensures
            final(self).wf(),
            final(self).spec_sample_rate() == old(self).spec_sample_rate(),
            final(self)@ == fed(
                old(self)@,
                old(self).spec_sample_rate(),
                message,
                at_frame,
                nearest,
                close,
            ),
    {
        match message {
            ClockMessage::Tick => {
                let mut steps: u64 = 1;
                if let Some(previous) = self.last_tick {
                    let interval: u128 = at_frame.saturating_sub(previous) as u128;
                    let minute: u128 = 60 * (self.sample_rate as u128);
                    if interval * 999 * 24 < minute || interval * 20 * 24 > minute {
                        // Discard the window with the gap. The next tick starts a fresh fit
                        // rather than being regressed against what was true before.
                        self.rejected = self.rejected + 1;
                        self.window.clear();
                        self.index = 0;
                    } else if self.window.len() >= 3 && close && nearest >= 2 && nearest <= 8 {
                        steps = nearest;
                    }
                }
                self.index = self.index + steps;
                self.push_stamp(at_frame);
                self.last_tick = Some(at_frame);
                if self.playing {
                    self.ticks = self.ticks + 1;
                }
            },
            ClockMessage::Start => {
                self.playing = true;
                self.ticks = 0;
                self.last_tick = None;
            },
            ClockMessage::Continue => {
                self.playing = true;
                self.last_tick = None;
            },
            ClockMessage::Stop => {
                self.playing = false;
                self.last_tick = None;
            },
            ClockMessage::SongPosition(sixteenths) => {
                // Six clocks to a sixteenth note.
                self.ticks = sixteenths as u64 * 6;
            },
        }
    }

    /// Adds the newest point and lets go of the oldest once the window is full.
    fn push_stamp(&mut self, at: u64)
        requires
            old(self)@.window.len() <= WINDOW,
        ensures
            final(self)@ == (Estimate {
                window: windowed(old(self)@.window.push((old(self)@.index as u64, at))),
                ..old(self)@
            }),
            final(self).spec_sample_rate() == old(self).spec_sample_rate(),
    {
        self.window.push((self.index, at));
        if self.window.len() > WINDOW {
            self.window.remove(0);
            assert(self@.window =~= old(self)@.window.push(
                (old(self)@.index as u64, at),
            ).drop_first());
        }
    }
}

/// A fit always has a slope: the points of a settled window are different ticks, so their indices
/// never coincide.
pub proof fn law_the_fit_has_a_slope<N: Copy>(pll: &ClockPll<N>)
    requires
        pll.wf(),
        pll@.window.len() >= 3,
    ensures
        pll@.window.first().0 < pll@.window.last().0,
        pll@.window.len() <= WINDOW,
{
}

/// Ticks while stopped do not advance the position; a start means bar one, and a song position is
/// six ticks for each sixteenth.
pub proof fn law_position_follows_the_transport<N>(
    state: Estimate<N>,
    sample_rate: u32,
    at: u64,
    nearest: u64,
    close: bool,
    sixteenths: u16,
)
    ensures
        !state.playing ==> fed(
            state,
            sample_rate,
            ClockMessage::Tick,
            at,
            nearest,
            close,
        ).ticks == state.ticks,
        fed(state, sample_rate, ClockMessage::Start, at, nearest, close).ticks == 0,
        fed(
            fed(state, sample_rate, ClockMessage::SongPosition(sixteenths), at, nearest, close),
            sample_rate,
            ClockMessage::Continue,
            at,
            nearest,
            close,
        ).ticks == 6 * sixteenths,
{
}

/// A gap is rejected rather than averaged: the window starts afresh with the tick that ended it.
pub proof fn law_a_gap_starts_a_fresh_window<N>(
    state: Estimate<N>,
    sample_rate: u32,
    previous: u64,
    at: u64,
    nearest: u64,
    close: bool,
)
    requires
        state.last_tick == Some(previous),
        !plausible(interval_of(previous, at), sample_rate),
    ensures
        ({
            let after = fed(state, sample_rate, ClockMessage::Tick, at, nearest, close);
            &&& after.window == seq![(1u64, at)]
            &&& after.rejected == state.rejected + 1
        }),
{
    let after = fed(state, sample_rate, ClockMessage::Tick, at, nearest, close);
    assert(after.window =~= seq![(1u64, at)]);
}

} // verus!
