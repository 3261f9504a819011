//! The state of one capture session, as an editor or a page drives it.
//!
//! What is selected, where the markers are, whether the picture is held, and what each of them
//! means against a ring whose writer never stops. Everything is in absolute frames.
use crate::clock::ClockMessage;
use crate::grid::Selection;
use crate::ring::Shape;
use vstd::arithmetic::power2::*;
use vstd::prelude::*;

verus! {

/// What a session is opened with.
#[derive(Clone, Copy, Debug, PartialEq, Eq, Structural)]
pub struct Settings {
    pub sample_rate: u32,
    pub channels: usize,
    /// Frames that the ring holds, a power of two.
    pub capacity: usize,
    /// Frames that a block is expected to have at most.
    pub max_block: usize,
}

/// `x` brought into `[low, high]`.
pub open spec fn clamped(x: u32, low: u32, high: u32) -> u32 {
    if x < low {
        low
    } else if x > high {
        high
    } else {
        x
    }
}

fn clamp(x: u32, low: u32, high: u32) -> (y: u32)
    requires
        low <= high,
    ensures
        y == clamped(x, low, high),
        low <= y <= high,
{
    if x < low {
        low
    } else if x > high {
        high
    } else {
        x
    }
}

impl Settings {
    /// Brings what a host asked for into what a session can be opened with: one or two channels, a
    /// ring of 2^16 to 2^26 frames, and rates and block sizes that exist.
    pub fn new(sample_rate: u32, channels: u32, capacity_log2: u32, max_block: u32) -> (settings:
        Settings)
        ensures
            settings.sample_rate == clamped(sample_rate, 8_000, 768_000),
            settings.channels == clamped(channels, 1, 2),
            settings.capacity == pow2(clamped(capacity_log2, 16, 26) as nat),
            settings.max_block == clamped(max_block, 64, 65_536),
            settings.capacity * settings.channels <= usize::MAX,
    {
        let log2: u32 = clamp(capacity_log2, 16, 26);
        let mut capacity: usize = 65_536;
        let mut k: u32 = 16;
        proof {
            lemma2_to64();
        }
        while k < log2
            invariant
                16 <= k <= log2 <= 26,
                capacity == pow2(k as nat),
                capacity <= 0x400_0000,
            decreases log2 - k,
        {
            proof {
                lemma2_to64();
                lemma_pow2_unfold((k + 1) as nat);
                if k + 1 < 26 {
                    lemma_pow2_strictly_increases((k + 1) as nat, 26);
                }
            }
            capacity = capacity * 2;
            k = k + 1;
        }
        let channels: usize = clamp(channels, 1, 2) as usize;
        assert(capacity * channels <= usize::MAX) by (nonlinear_arith)
            requires
                capacity <= 0x400_0000,
                channels <= 2,
        ;
        Settings {
            sample_rate: clamp(sample_rate, 8_000, 768_000),
            channels,
            capacity,
            max_block: clamp(max_block, 64, 65_536) as usize,
        }
    }
}

/// How a selection stands against the ring.
#[derive(Clone, Copy, Debug, PartialEq, Eq, Structural)]
pub enum SelectionState {
    /// Nothing is selected.
    Empty,
    /// It reaches past what has been captured.
    Pending,
    /// The writer has reached it.
    Overwritten,
    /// It can be exported.
    Ready,
}

impl SelectionState {
    /// The number that stands for a state in a status report.
    pub fn code(self) -> (code: u32)
        ensures
            code == match self {
                SelectionState::Empty => 0u32,
                SelectionState::Pending => 1,
                SelectionState::Overwritten => 2,
                SelectionState::Ready => 3,
            },
    {
        match self {
            SelectionState::Empty => 0,
            SelectionState::Pending => 1,
            SelectionState::Overwritten => 2,
            SelectionState::Ready => 3,
        }
    }
}

/// The state of a selection once `head` frames were written to a ring of `capacity`.
pub open spec fn state_of(selection: Option<Selection>, head: u64, capacity: int) -> SelectionState {
    match selection {
        None => SelectionState::Empty,
        Some(selection) => if selection.end > head {
            SelectionState::Pending
        } else if !crate::ring::held(
            head as int,
            capacity,
            selection.start as int,
            selection.end as int,
        ) {
            SelectionState::Overwritten
        } else {
            SelectionState::Ready
        },
    }
}

/// What is selected, marked and held.
#[derive(Debug)]
pub struct Session {
    selection: Option<Selection>,
    markers: Vec<u64>,
    held_at: Option<u64>,
    /// Where the block being captured began.
    block_start: u64,
}

/// A session in specifications.
#[verifier::ext_equal]
pub struct SessionView {
    pub selection: Option<Selection>,
    pub markers: Seq<u64>,
    pub held_at: Option<u64>,
    pub block_start: u64,
}

impl View for Session {
    type V = SessionView;

    closed spec fn view(&self) -> SessionView {
        SessionView {
            selection: self.selection,
            markers: self.markers@,
            held_at: self.held_at,
            block_start: self.block_start,
        }
    }
}

/// The markers at or after `oldest`, in order.
pub open spec fn still_there(markers: Seq<u64>, oldest: u64) -> Seq<u64>
    decreases markers.len(),
{
    if markers.len() == 0 {
        Seq::empty()
    } else {
        let earlier = still_there(markers.drop_last(), oldest);
        if markers.last() >= oldest {
            earlier.push(markers.last())
        } else {
            earlier
        }
    }
}

/// The latest marker set before `head`, where there is one.
pub open spec fn latest_before(markers: Seq<u64>, head: u64) -> Option<u64>
    decreases markers.len(),
{
    if markers.len() == 0 {
        None
    } else if markers.last() < head {
        Some(markers.last())
    } else {
        latest_before(markers.drop_last(), head)
    }
}

/// What is left of a selection once everything before `first` is given up.
pub open spec fn eroded(selection: Option<Selection>, first: u64) -> Option<Selection> {
    match selection {
        None => None,
        Some(selection) => if selection.start >= first {
            Some(selection)
        } else if first < selection.end {
            Some(Selection { start: first, end: selection.end })
        } else {
            None
        },
    }
}

/// Where an event of the block that began at `block_start` is stamped: inside the block, on frames
/// that were captured. A block that was refused takes no events.
pub open spec fn stamp_of(block_start: u64, captured: u64, offset: u32) -> Option<u64> {
    if captured <= block_start {
        None
    } else if block_start + offset < captured {
        Some((block_start + offset) as u64)
    } else {
        Some((captured - 1) as u64)
    }
}

impl Session {
    pub fn new() -> (session: Session)
        ensures
            session@ == (SessionView {
                selection: None,
                markers: Seq::empty(),
                held_at: None,
                block_start: 0,
            }),
    {
        Session { selection: None, markers: Vec::new(), held_at: None, block_start: 0 }
    }

    pub fn selection(&self) -> (selection: Option<Selection>)
        ensures
            selection == self@.selection,
    {
        self.selection
    }

    pub fn markers(&self) -> (markers: &Vec<u64>)
        ensures
            markers@ == self@.markers,
    {
        &self.markers
    }

    pub fn is_held(&self) -> (held: bool)
        ensures
            held == self@.held_at is Some,
    {
        self.held_at.is_some()
    }

    /// The head that the editor reads: frozen where it was held, and otherwise where capture is.
    pub fn head(&self, captured: u64) -> (head: u64)
        ensures
            head == match self@.held_at {
                Some(at) => at,
                None => captured,
            },
    {
        match self.held_at {
            Some(at) => at,
            None => captured,
        }
    }

    /// Freezes the picture at the write head, or lets it go.
    pub fn hold(&mut self, on: bool, captured: u64)
        ensures
            final(self)@ == (SessionView {
                held_at: if on {
                    Some(captured)
                } else {
                    None
                },
                ..old(self)@
            }),
    {
        self.held_at = if on {
            Some(captured)
        } else {
            None
        };
    }

    /// Selects, or clears the selection.
    pub fn select(&mut self, selection: Option<Selection>)
        ensures
            final(self)@ == (SessionView { selection, ..old(self)@ }),
    {
        self.selection = selection;
    }

    /// Notes where the block about to be captured begins.
    pub fn begin_block(&mut self, captured: u64)
        ensures
            final(self)@ == (SessionView { block_start: captured, ..old(self)@ }),
    {
        self.block_start = captured;
    }

    /// Where an event at `offset` in the block just captured is stamped.
    ///
    /// Clamped inside the block: a host may report an offset past the end, and a frame beyond the
    /// write head would make every reader treat the event as not captured yet. `None` where the
    /// block was refused: MIDI follows the transport exactly as audio does, or a clip would contain
    /// notes from a passage whose audio was never recorded.
    pub fn stamp(&self, captured: u64, offset: u32) -> (frame: Option<u64>)
        ensures
            frame == stamp_of(self@.block_start, captured, offset),
    {
        if captured <= self.block_start {
            return None;
        }
        let last: u64 = captured - 1;
        if last - self.block_start < offset as u64 {
            Some(last)
        } else {
            Some(self.block_start + offset as u64)
        }
    }

    /// Marks the write head, and lets go of the markers whose audio is gone.
    pub fn mark(&mut self, captured: u64, oldest: u64)
        ensures
            final(self)@ == (SessionView {
                markers: still_there(old(self)@.markers.push(captured), oldest),
                ..old(self)@
            }),
    {
        self.markers.push(captured);
        let ghost all = self.markers@;
        let mut kept: Vec<u64> = Vec::new();
        let mut i: usize = 0;
        assert(all.take(0) =~= Seq::empty());
        while i < self.markers.len()
            invariant
                i <= all.len(),
                self.markers@ == all,
                self.selection == old(self)@.selection,
                self.held_at == old(self)@.held_at,
                self.block_start == old(self)@.block_start,
                kept@ == still_there(all.take(i as int), oldest),
            decreases all.len() - i,
        {
            assert(all.take(i + 1).drop_last() =~= all.take(i as int));
            if self.markers[i] >= oldest {
                kept.push(self.markers[i]);
            }
            i = i + 1;
        }
        assert(all.take(i as int) =~= all);
        self.markers = kept;
    }

    /// The marker that a selection from the last mark starts at: the latest one before `head`.
    pub fn marker_before(&self, head: u64) -> (marker: Option<u64>)
        ensures
            marker == latest_before(self@.markers, head),
    {
        let mut i: usize = self.markers.len();
        assert(self@.markers.take(i as int) =~= self@.markers);
        while i > 0
            invariant
                i <= self.markers@.len(),
                self@.markers == self.markers@,
                latest_before(self@.markers, head) == latest_before(
                    self@.markers.take(i as int),
                    head,
                ),
            decreases i,
        {
            assert(self@.markers.take(i as int).drop_last() =~= self@.markers.take(i - 1));
            i = i - 1;
            if self.markers[i] < head {
                return Some(self.markers[i]);
            }
        }
        None
    }

    /// Trims the selection as the window moves past it: everything before `first` is given up, and
    /// nothing is while the picture is held.
    pub fn erode(&mut self, first: u64)
        ensures
            final(self)@ == (SessionView {
                selection: if old(self)@.held_at is Some {
                    old(self)@.selection
                } else {
                    eroded(old(self)@.selection, first)
                },
                ..old(self)@
            }),
    {
        if self.held_at.is_some() {
            return;
        }
        if let Some(selection) = self.selection {
            if selection.start < first {
                self.selection = if first < selection.end {
                    Some(Selection { start: first, end: selection.end })
                } else {
                    None
                };
            }
        }
    }

    /// How the selection stands against the ring.
    pub fn selection_state(&self, shape: &Shape, head: u64) -> (state: SelectionState)
        ensures
            state == state_of(self@.selection, head, shape.capacity as int),
    {
        match self.selection {
            None => SelectionState::Empty,
            Some(selection) => if selection.end > head {
                SelectionState::Pending
            } else if !shape.holds(head, selection.start, selection.end) {
                SelectionState::Overwritten
            } else {
                SelectionState::Ready
            },
        }
    }

    /// The selection to export, or `None` where that is refused: nothing selected, an empty
    /// selection, or a range that the writer has lapped or not reached. A partly overwritten read is
    /// a seam of old and new audio that looks completely plausible.
    pub fn to_stage(&self, shape: &Shape, head: u64) -> (selection: Option<Selection>)
        ensures
            selection == match self@.selection {
                Some(selection) if selection.start < selection.end && state_of(
                    self@.selection,
                    head,
                    shape.capacity as int,
                ) == SelectionState::Ready => Some(selection),
                _ => None,
            },
    {
        match self.selection {
            Some(selection) => if shape.holds(head, selection.start, selection.end)
                && selection.start < selection.end {
                Some(selection)
            } else {
                None
            },
            None => None,
        }
    }
}

/// How many bytes of a text go into a buffer of `capacity` that has to end in a zero.
pub fn copied_length(length: usize, capacity: usize) -> (copied: usize)
    ensures
        copied == if capacity == 0 {
            0
        } else if length < capacity {
            length as int
        } else {
            capacity - 1
        },
{
    if capacity == 0 {
        0
    } else if length < capacity {
        length
    } else {
        capacity - 1
    }
}

/// The samples of one channel of an interleaved block.
pub open spec fn channel_of(interleaved: Seq<u32>, channels: int, channel: int, frames: nat) -> Seq<
    u32,
> {
    Seq::new(frames, |i: int| interleaved[i * channels + channel])
}

/// Takes an interleaved block apart into one plane per channel.
pub fn deinterleave(interleaved: &[u32], channels: usize, frames: usize) -> (planes: Vec<Vec<u32>>)
    requires
        frames * channels <= interleaved@.len(),
    ensures
        planes@.len() == channels,
        forall|c: int|
            0 <= c < channels ==> (#[trigger] planes@[c])@ == channel_of(
                interleaved@,
                channels as int,
                c,
                frames as nat,
            ),
{
    let total: usize = interleaved.len();
    let mut planes: Vec<Vec<u32>> = Vec::new();
    let mut c: usize = 0;
    while c < channels
        invariant
            c <= channels,
            total == interleaved@.len(),
            frames * channels <= total,
            planes@.len() == c,
            forall|d: int|
                0 <= d < c ==> (#[trigger] planes@[d])@ == channel_of(
                    interleaved@,
                    channels as int,
                    d,
                    frames as nat,
                ),
        decreases channels - c,
    {
        let mut plane: Vec<u32> = Vec::new();
        let mut i: usize = 0;
        while i < frames
            invariant
                i <= frames,
                c < channels,
                total == interleaved@.len(),
                frames * channels <= total,
                plane@.len() == i,
                forall|n: int| 0 <= n < i ==> plane@[n] == interleaved@[n * channels + c],
            decreases frames - i,
        {
            assert(0 <= i * channels && i * channels + c < frames * channels) by (nonlinear_arith)
                requires
                    i < frames,
                    c < channels,
            ;
            plane.push(interleaved[i * channels + c]);
            i = i + 1;
        }
        assert(plane@ =~= channel_of(interleaved@, channels as int, c as int, frames as nat));
        planes.push(plane);
        c = c + 1;
    }
    planes
}

/// Whether the transport rolls after a message.
pub fn playing_after(message: ClockMessage, playing: bool) -> (rolls: bool)
    ensures
        rolls == match message {
            ClockMessage::Start | ClockMessage::Continue => true,
            ClockMessage::Stop => false,
            _ => playing,
        },
{
    match message {
        ClockMessage::Start => true,
        ClockMessage::Continue => true,
        ClockMessage::Stop => false,
        _ => playing,
    }
}

/// A selection erodes rather than vanishing: what is left keeps its end, lies inside what was
/// selected, and is not empty; and a selection that nothing was taken from is untouched.
pub proof fn law_erosion_gives_up_the_oldest(selection: Selection, first: u64)
    requires
        selection.start < selection.end,
    ensures
        eroded(Some(selection), first) matches Some(left) ==> {
            &&& left.end == selection.end
            &&& selection.start <= left.start < left.end
            &&& first <= left.start
        },
        eroded(Some(selection), first) is None <==> selection.end <= first,
        first <= selection.start ==> eroded(Some(selection), first) == Some(selection),
{
}

/// Eroding again by the same edge gives up nothing more.
pub proof fn law_erosion_settles(selection: Option<Selection>, first: u64)
    ensures
        eroded(eroded(selection, first), first) == eroded(selection, first),
{
}

/// Only what the ring still holds in full is ready.
pub proof fn law_ready_means_held(selection: Selection, head: u64, capacity: int)
    ensures
        state_of(Some(selection), head, capacity) == SelectionState::Ready <==> crate::ring::held(
            head as int,
            capacity,
            selection.start as int,
            selection.end as int,
        ),
{
}

/// An event is stamped inside the block that it belongs to.
pub proof fn law_events_stay_in_their_block(block_start: u64, captured: u64, offset: u32)
    ensures
        stamp_of(block_start, captured, offset) matches Some(frame) ==> block_start <= frame
            < captured,
        stamp_of(block_start, captured, offset) is None <==> captured <= block_start,
{
}

/// The marker found is one that was set, before the head, with none after it that is.
pub proof fn law_latest_marker_before_the_head(markers: Seq<u64>, head: u64)
    ensures
        match latest_before(markers, head) {
            Some(marker) => marker < head && exists|i: int|
                0 <= i < markers.len() && markers[i] == marker && forall|j: int|
                    i < j < markers.len() ==> #[trigger] markers[j] >= head,
            None => forall|j: int| 0 <= j < markers.len() ==> #[trigger] markers[j] >= head,
        },
    decreases markers.len(),
{
    if markers.len() > 0 {
        let before = markers.drop_last();
        let last = markers.len() - 1;
        if markers.last() < head {
            assert(markers[last] == markers.last());
        } else {
            law_latest_marker_before_the_head(before, head);
            match latest_before(before, head) {
                Some(marker) => {
                    let i = choose|i: int|
                        0 <= i < before.len() && before[i] == marker && forall|j: int|
                            i < j < before.len() ==> #[trigger] before[j] >= head;
                    assert(markers[i] == marker);
                    assert forall|j: int| i < j < markers.len() implies #[trigger] markers[j]
                        >= head by {
                        if j < before.len() {
                            assert(before[j] == markers[j]);
                        }
                    }
                },
                None => {
                    assert forall|j: int| 0 <= j < markers.len() implies #[trigger] markers[j]
                        >= head by {
                        if j < before.len() {
                            assert(before[j] == markers[j]);
                        }
                    }
                },
            }
        }
    }
}

} // verus!
