//! Meters, and the history of a session's tempo.
//!
//! The map is keyed on capture frames, not on song position: what it accumulates is elapsed
//! transport time, monotonic, gapless, and unaware that a locate ever happened. A tempo change does
//! not rewrite history: each observed change appends a segment and the older ones stay exactly as
//! they were.
//!
//! A map is generic in the number type of its tempi and positions. It keeps them, finds them and
//! hands them out; whoever chose the type does the arithmetic on it.
use vstd::prelude::*;

verus! {

/// A time signature. `den` is the note value that gets the beat, as written: the 8 in 6/8.
#[derive(Clone, Copy, Debug, PartialEq, Eq, Structural)]
pub struct Meter {
    pub num: u32,
    pub den: u32,
}

impl Meter {
    /// Both parts of a meter are at least one.
    pub fn new(num: u32, den: u32) -> (meter: Meter)
        requires
            num > 0,
            den > 0,
        ensures
            meter == (Meter { num, den }),
    {
        Meter { num, den }
    }

    /// Common time.
    pub fn four_four() -> (meter: Meter)
        ensures
            meter == (Meter { num: 4, den: 4 }),
    {
        Meter { num: 4, den: 4 }
    }
}

/// One stretch of constant tempo and meter, and how much music had passed where it begins.
#[derive(Clone, Copy, Debug)]
pub struct Segment<N> {
    pub frame: u64,
    pub bpm: N,
    pub meter: Meter,
    /// Quarter notes elapsed at `frame`.
    pub quarters: N,
    /// Bars elapsed at `frame`.
    pub bars: N,
}

/// Tempo and meter over capture time, as a list of segments.
#[derive(Clone, Debug)]
pub struct TempoMap<N> {
    sample_rate: u32,
    segments: Vec<Segment<N>>,
    bar_phase: N,
}

/// The segment in force at `frame`: the last one that begins at or before it.
pub open spec fn in_force_at<N>(segments: Seq<Segment<N>>, frame: u64) -> int
    decreases segments.len(),
{
    if segments.len() == 0 {
        -1
    } else if segments.last().frame <= frame {
        segments.len() - 1
    } else {
        in_force_at(segments.drop_last(), frame)
    }
}

/// What a map holds once a change was observed at `frame`. One identical to what is in force is
/// dropped, and of two at the same instant the later one wins outright.
pub open spec fn changed<N>(
    segments: Seq<Segment<N>>,
    next: Segment<N>,
    same_bpm: bool,
) -> Seq<Segment<N>> {
    let last = segments.last();
    if same_bpm && next.meter == last.meter {
        segments
    } else if next.frame == last.frame {
        segments.drop_last().push(Segment { bpm: next.bpm, meter: next.meter, ..last })
    } else {
        segments.push(next)
    }
}

/// The changes strictly inside `(start, end)`, oldest first.
pub open spec fn changes_between<N>(segments: Seq<Segment<N>>, start: u64, end: u64) -> Seq<
    (u64, N, Meter),
>
    decreases segments.len(),
{
    if segments.len() == 0 {
        Seq::empty()
    } else {
        let earlier = changes_between(segments.drop_last(), start, end);
        let last = segments.last();
        if start < last.frame < end {
            earlier.push((last.frame, last.bpm, last.meter))
        } else {
            earlier
        }
    }
}

/// Segments are in order, and the first one begins with the capture.
pub open spec fn ordered<N>(segments: Seq<Segment<N>>) -> bool {
    &&& segments.len() > 0
    &&& segments[0].frame == 0
    &&& forall|i: int, j: int| 0 <= i < j < segments.len() ==> segments[i].frame < segments[j].frame
}

proof fn lemma_in_force_at<N>(segments: Seq<Segment<N>>, frame: u64, i: int)
    requires
        ordered(segments),
        0 <= i < segments.len(),
        segments[i].frame <= frame,
        i + 1 < segments.len() ==> segments[i + 1].frame > frame,
    ensures
        in_force_at(segments, frame) == i,
    decreases segments.len(),
{
    if i + 1 < segments.len() {
        if i + 1 < segments.len() - 1 {
            assert(segments[i + 1].frame < segments.last().frame);
        }
        lemma_in_force_at(segments.drop_last(), frame, i);
    }
}

/// A map is viewed as its segments, oldest first.
impl<N> View for TempoMap<N> {
    type V = Seq<Segment<N>>;

    closed spec fn view(&self) -> Seq<Segment<N>> {
        self.segments@
    }
}

impl<N> TempoMap<N> {
    pub closed spec fn spec_sample_rate(&self) -> u32 {
        self.sample_rate
    }

    /// How far into a bar of the segments bar one of the grid begins.
    pub closed spec fn spec_bar_phase(&self) -> N {
        self.bar_phase
    }

    pub open spec fn wf(&self) -> bool {
        ordered(self@)
    }
}

impl<N: Copy> TempoMap<N> {
    /// A map that begins at frame zero, with nothing elapsed.
    pub fn new(sample_rate: u32, bpm: N, meter: Meter, nothing: N) -> (map: TempoMap<N>)
        requires
            sample_rate > 0,
        ensures
            map.wf(),
            map.spec_sample_rate() == sample_rate,
            map.spec_bar_phase() == nothing,
            map@ == seq![Segment { frame: 0, bpm, meter, quarters: nothing, bars: nothing }],
    {
        let mut segments: Vec<Segment<N>> = Vec::new();
        segments.push(Segment { frame: 0, bpm, meter, quarters: nothing, bars: nothing });
        TempoMap { sample_rate, segments, bar_phase: nothing }
    }

    pub fn sample_rate(&self) -> (sample_rate: u32)
        ensures
            sample_rate == self.spec_sample_rate(),
    {
        self.sample_rate
    }

    pub fn bar_phase(&self) -> (phase: N)
        ensures
            phase == self.spec_bar_phase(),
    {
        self.bar_phase
    }

    /// Moves the grid against the segments. They stay as they are.
    pub fn set_bar_phase(&mut self, phase: N)
        ensures
            final(self)@ == old(self)@,
            final(self).spec_sample_rate() == old(self).spec_sample_rate(),
            final(self).spec_bar_phase() == phase,
    {
        self.bar_phase = phase;
    }

    /// The newest segment.
    pub fn last(&self) -> (segment: Segment<N>)
        requires
            self.wf(),
        ensures
            segment == self@.last(),
    {
        self.segments[self.segments.len() - 1]
    }

    /// Records a tempo or meter change observed at `next.frame`, which must not lie before the
    /// newest segment. `same_bpm` says that its tempo is the one in force.
    ///
    /// A change identical to what is already in force is dropped, so a clock that re-reports the
    /// same tempo every beat does not grow the map without bound.
    pub fn push(&mut self, next: Segment<N>, same_bpm: bool)
        requires
            old(self).wf(),
            next.frame >= old(self)@.last().frame,
        ensures
            final(self).wf(),
            final(self).spec_sample_rate() == old(self).spec_sample_rate(),
            final(self).spec_bar_phase() == old(self).spec_bar_phase(),
            final(self)@ == changed(old(self)@, next, same_bpm),
    {
        let at: usize = self.segments.len() - 1;
        let last = self.segments[at];
        if same_bpm && next.meter == last.meter {
            return;
        }
        if next.frame == last.frame {
            self.segments.set(
                at,
                Segment {
                    frame: last.frame,
                    bpm: next.bpm,
                    meter: next.meter,
                    quarters: last.quarters,
                    bars: last.bars,
                },
            );
            assert(self@ =~= changed(old(self)@, next, same_bpm));
            return;
        }
        self.segments.push(next);
    }

    /// The segment in force at `frame`.
    pub fn segment_at_frame(&self, frame: u64) -> (segment: Segment<N>)
        requires
            self.wf(),
        ensures
            0 <= in_force_at(self@, frame) < self@.len(),
            segment == self@[in_force_at(self@, frame)],
    {
        let mut low: usize = 0;
        let mut high: usize = self.segments.len();
        while high - low > 1
            invariant
                self.wf(),
                low < high <= self@.len(),
                self@.len() == self.segments@.len(),
                self@[low as int].frame <= frame,
                high < self@.len() ==> self@[high as int].frame > frame,
            decreases high - low,
        {
            let middle: usize = low + (high - low) / 2;
            if self.segments[middle].frame <= frame {
                low = middle;
            } else {
                high = middle;
            }
        }
        proof {
            lemma_in_force_at(self@, frame, low as int);
        }
        self.segments[low]
    }

    /// The last of the leading segments whose first bar `reached` accepts, or the first segment
    /// where it accepts none.
    pub fn segment_at_bar(&self, reached: impl Fn(N) -> bool) -> (segment: Segment<N>)
        requires
            self.wf(),
            forall|bars: N| reached.requires((bars,)),
        ensures
            exists|i: int|
                {
                    &&& 0 <= i < self@.len()
                    &&& segment == #[trigger] self@[i]
                    &&& forall|j: int|
                        0 <= j < i ==> reached.ensures((#[trigger] self@[j].bars,), true)
                    &&& (reached.ensures((self@[i].bars,), true) && i + 1 == self@.len()) || (
                    reached.ensures((self@[i].bars,), true) && reached.ensures(
                        (self@[i + 1].bars,),
                        false,
                    )) || (i == 0 && reached.ensures((self@[0].bars,), false))
                },
    {
        if !reached(self.segments[0].bars) {
            assert(self@[0] == self.segments@[0]);
            return self.segments[0];
        }
        let last: usize = self.segments.len() - 1;
        let mut i: usize = 0;
        while i < last
            invariant
                last == self@.len() - 1,
                self.wf(),
                forall|bars: N| reached.requires((bars,)),
                i <= last,
                self@ == self.segments@,
                forall|j: int| 0 <= j <= i ==> reached.ensures((#[trigger] self@[j].bars,), true),
            decreases last - i,
        {
            if !reached(self.segments[i + 1].bars) {
                assert(self@[i as int].bars == self.segments@[i as int].bars);
                assert(reached.ensures((self@[i as int].bars,), true));
                return self.segments[i];
            }
            i = i + 1;
        }
        assert(reached.ensures((self@[i as int].bars,), true));
        self.segments[i]
    }

    pub fn bpm_at(&self, frame: u64) -> (bpm: N)
        requires
            self.wf(),
        ensures
            bpm == self@[in_force_at(self@, frame)].bpm,
    {
        self.segment_at_frame(frame).bpm
    }

    pub fn meter_at(&self, frame: u64) -> (meter: Meter)
        requires
            self.wf(),
        ensures
            meter == self@[in_force_at(self@, frame)].meter,
    {
        self.segment_at_frame(frame).meter
    }

    /// Tempo and meter changes strictly inside `(start, end)`, oldest first.
    ///
    /// Exported clips need these: a MIDI file whose tempo track stops at the first value would
    /// play back at the wrong speed for everything after a change.
    pub fn changes_in(&self, start: u64, end: u64) -> (changes: Vec<(u64, N, Meter)>)
        ensures
            changes@ == changes_between(self@, start, end),
    {
        let mut changes: Vec<(u64, N, Meter)> = Vec::new();
        let mut i: usize = 0;
        assert(self@.take(0) =~= Seq::<Segment<N>>::empty());
        while i < self.segments.len()
            invariant
                i <= self@.len(),
                self@ == self.segments@,
                changes@ == changes_between(self@.take(i as int), start, end),
            decreases self@.len() - i,
        {
            let segment = self.segments[i];
            assert(self@.take(i + 1).drop_last() =~= self@.take(i as int));
            if segment.frame > start && segment.frame < end {
                changes.push((segment.frame, segment.bpm, segment.meter));
            }
            i = i + 1;
        }
        assert(self@.take(i as int) =~= self@);
        changes
    }

    /// Number of segments.
    pub fn len(&self) -> (len: usize)
        ensures
            len == self@.len(),
    {
        self.segments.len()
    }

    /// A map always holds the segment that it began with.
    pub fn is_empty(&self) -> (empty: bool)
        requires
            self.wf(),
        ensures
            empty == (self@.len() == 0),
    {
        false
    }
}

/// History keeps its own tempo: whatever change is recorded, the segment in force anywhere before
/// it stays what it was.
pub proof fn law_history_is_not_rewritten<N>(
    segments: Seq<Segment<N>>,
    next: Segment<N>,
    same_bpm: bool,
    frame: u64,
)
    requires
        ordered(segments),
        segments.last().frame <= next.frame,
        frame < next.frame,
    ensures
        changed(segments, next, same_bpm)[in_force_at(changed(segments, next, same_bpm), frame)]
            == segments[in_force_at(segments, frame)],
{
    let after = changed(segments, next, same_bpm);
    if after != segments {
        assert(after.last().frame == next.frame);
        if next.frame == segments.last().frame {
            assert(after.drop_last() =~= segments.drop_last());
            lemma_in_force_bound(segments.drop_last(), frame);
        } else {
            assert(after.drop_last() =~= segments);
            lemma_in_force_bound(segments, frame);
        }
    }
}

/// A change holds from its frame on. It adds a segment only where it is one, and where no other
/// change was recorded on its frame.
pub proof fn law_a_change_holds_from_its_frame<N>(
    segments: Seq<Segment<N>>,
    next: Segment<N>,
    same_bpm: bool,
    frame: u64,
)
    requires
        ordered(segments),
        segments.last().frame <= next.frame <= frame,
    ensures
        ({
            let after = changed(segments, next, same_bpm);
            let now = after[in_force_at(after, frame)];
            let unchanged = same_bpm && next.meter == segments.last().meter;
            &&& now == after.last()
            &&& now.meter == next.meter
            &&& unchanged ==> now == segments.last()
            &&& !unchanged ==> now.bpm == next.bpm && now.frame == next.frame
            &&& after.len() == segments.len() + if unchanged || next.frame
                == segments.last().frame {
                0int
            } else {
                1int
            }
        }),
{
}

/// Music runs on through a change: where `quarters` and `bars` say how much had passed at a frame
/// of a segment, from what had passed where it begins, and the change was recorded with what they
/// say of its frame, they say the same as before of every frame up to it.
pub proof fn law_music_runs_on_through_a_change<N>(
    segments: Seq<Segment<N>>,
    next: Segment<N>,
    same_bpm: bool,
    quarters: spec_fn(Segment<N>, u64) -> N,
    bars: spec_fn(Segment<N>, u64) -> N,
    frame: u64,
)
    requires
        ordered(segments),
        segments.last().frame <= next.frame,
        frame <= next.frame,
        forall|s: Segment<N>| #[trigger] quarters(s, s.frame) == s.quarters,
        forall|s: Segment<N>| #[trigger] bars(s, s.frame) == s.bars,
        next.quarters == quarters(segments.last(), next.frame),
        next.bars == bars(segments.last(), next.frame),
    ensures
        ({
            let after = changed(segments, next, same_bpm);
            let then = segments[in_force_at(segments, frame)];
            let now = after[in_force_at(after, frame)];
            quarters(now, frame) == quarters(then, frame) && bars(now, frame) == bars(then, frame)
        }),
{
    if frame < next.frame {
        law_history_is_not_rewritten(segments, next, same_bpm, frame);
    } else {
        let now = changed(segments, next, same_bpm).last();
        assert(quarters(now, now.frame) == now.quarters);
        assert(bars(now, now.frame) == now.bars);
        let last = segments.last();
        assert(quarters(last, last.frame) == last.quarters);
        assert(bars(last, last.frame) == last.bars);
    }
}

proof fn lemma_in_force_bound<N>(segments: Seq<Segment<N>>, frame: u64)
    requires
        segments.len() > 0 ==> segments[0].frame == 0,
    ensures
        in_force_at(segments, frame) < segments.len(),
        segments.len() > 0 ==> in_force_at(segments, frame) >= 0,
    decreases segments.len(),
{
    if segments.len() > 0 {
        lemma_in_force_bound(segments.drop_last(), frame);
    }
}

/// An unchanged tempo does not grow the map, and no change grows it by more than one segment.
pub proof fn law_an_unchanged_tempo_does_not_grow_the_map<N>(
    segments: Seq<Segment<N>>,
    next: Segment<N>,
    same_bpm: bool,
)
    requires
        ordered(segments),
    ensures
        same_bpm && next.meter == segments.last().meter ==> changed(segments, next, same_bpm)
            == segments,
        changed(segments, next, same_bpm).len() <= segments.len() + 1,
{
}

} // verus!
