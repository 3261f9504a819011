//! The audio ring: one producer, any number of readers with cursors of their own.
//!
//! The layout is planar, so one channel is a contiguous span that can be uploaded in a single
//! write. The producer is overwriting: it never blocks, never allocates and never looks at a
//! reader. Readers hold private cursors and detect being lapped, so a slow reader costs the audio
//! thread nothing. Samples are carried as the 32 bits that they are stored in.
//!
//! Frames are counted by a `u64` that only ever grows, and everything about the ring is said in
//! those absolute frames.
use vstd::arithmetic::div_mod::*;
use vstd::arithmetic::power2::*;
use vstd::prelude::*;

verus! {

/// The dimensions of a ring, and the arithmetic of its slots.
#[derive(Clone, Copy, Debug, PartialEq, Eq, Structural)]
pub struct Shape {
    pub capacity: usize,
    pub channels: usize,
    pub sample_rate: u32,
}

/// The slot of its plane that an absolute frame falls into.
pub open spec fn slot_of(frame: int, capacity: int) -> int {
    frame % capacity
}

/// The oldest absolute frame that a ring still holds once `head` frames were written.
pub open spec fn oldest_of(head: int, capacity: int) -> int {
    if head > capacity {
        head - capacity
    } else {
        0
    }
}

/// `[start, end)` lies wholly inside the window that a ring still holds.
pub open spec fn held(head: int, capacity: int, start: int, end: int) -> bool {
    oldest_of(head, capacity) <= start <= end <= head
}

impl Shape {
    pub open spec fn wf(self) -> bool {
        &&& exists|k: nat| self.capacity == pow2(k)
        &&& self.capacity > 0
        &&& self.channels > 0
        &&& self.capacity * self.channels <= usize::MAX
    }

    /// Where frame `frame` of channel `channel` is stored.
    pub fn slot(&self, channel: usize, frame: u64) -> (at: usize)
        requires
            self.wf(),
            channel < self.channels,
        ensures
            at == channel * self.capacity + slot_of(frame as int, self.capacity as int),
            at < self.capacity * self.channels,
    {
        let within: usize = (frame % (self.capacity as u64)) as usize;
        proof {
            lemma_cell_bound(
                channel as int,
                within as int,
                self.capacity as int,
                self.channels as int,
            );
        }
        channel * self.capacity + within
    }

    /// How many of `frames` frames from `start` on lie in one contiguous run before the wrap.
    pub fn contiguous(&self, start: u64, frames: usize) -> (run: usize)
        requires
            self.wf(),
        ensures
            run <= frames,
            run == if frames < self.capacity - slot_of(start as int, self.capacity as int) {
                frames as int
            } else {
                self.capacity - slot_of(start as int, self.capacity as int)
            },
    {
        let offset: usize = (start % (self.capacity as u64)) as usize;
        if frames < self.capacity - offset {
            frames
        } else {
            self.capacity - offset
        }
    }

    /// The channel that is read for `channel`: past the last one there is only the last one.
    pub fn clamped(&self, channel: usize) -> (clamped: usize)
        requires
            self.wf(),
        ensures
            clamped == clamp_channel(channel as int, self.channels as int),
            clamped < self.channels,
    {
        if channel < self.channels {
            channel
        } else {
            self.channels - 1
        }
    }

    /// The oldest absolute frame index still present once `head` frames were written.
    pub fn oldest(&self, head: u64) -> (oldest: u64)
        ensures
            oldest == oldest_of(head as int, self.capacity as int),
    {
        head.saturating_sub(self.capacity as u64)
    }

    /// True when `[start, end)` is entirely inside the window held once `head` frames were written.
    pub fn holds(&self, head: u64, start: u64, end: u64) -> (holds: bool)
        ensures
            holds == held(head as int, self.capacity as int, start as int, end as int),
    {
        end >= start && start >= self.oldest(head) && end <= head
    }
}

pub open spec fn clamp_channel(channel: int, channels: int) -> int {
    if channel < channels {
        channel
    } else {
        channels - 1
    }
}

/// A cell of a plane lies inside the memory of the ring.
proof fn lemma_cell_bound(channel: int, within: int, capacity: int, channels: int)
    by (nonlinear_arith)
    requires
        0 <= channel < channels,
        0 <= within < capacity,
    ensures
        0 <= channel * capacity,
        0 <= channel * capacity + within < capacity * channels,
{
}

/// Two cells are the same only where channel and slot agree.
proof fn lemma_cells_differ(c: int, k: int, d: int, l: int, capacity: int)
    requires
        0 <= k < capacity,
        0 <= l < capacity,
        c * capacity + k == d * capacity + l,
    ensures
        c == d,
        k == l,
{
    lemma_fundamental_div_mod_converse(c * capacity + k, capacity, c, k);
    lemma_fundamental_div_mod_converse(d * capacity + l, capacity, d, l);
}

/// The write half, and the memory that it writes. It is the only thing that may store into the
/// ring.
#[derive(Debug)]
pub struct Producer {
    data: Vec<u32>,
    write: u64,
    shape: Shape,
}

/// A read half. Each holds its own cursor over the same memory, so that the renderer and the
/// exporter can fall behind independently without either one affecting the other or the producer.
#[derive(Debug)]
pub struct Reader {
    shape: Shape,
    cursor: u64,
    laps: u64,
}

impl Producer {
    pub closed spec fn spec_shape(&self) -> Shape {
        self.shape
    }

    /// Frames written so far.
    pub closed spec fn spec_written(&self) -> nat {
        self.write as nat
    }

    /// What the ring holds for absolute frame `frame` of channel `channel`.
    pub closed spec fn sample(&self, channel: int, frame: int) -> u32 {
        self.data@[channel * self.shape.capacity + slot_of(frame, self.shape.capacity as int)]
    }

    /// `frames` frames of one channel from absolute frame `start` on. Past the last channel there
    /// is only the last one.
    pub open spec fn span(&self, channel: int, start: int, frames: nat) -> Seq<u32> {
        Seq::new(
            frames,
            |i: int|
                self.sample(
                    clamp_channel(channel, self.spec_shape().channels as int),
                    start + i,
                ),
        )
    }

    /// `[start, end)` is still in the ring.
    pub open spec fn spec_holds(&self, start: int, end: int) -> bool {
        held(self.spec_written() as int, self.spec_shape().capacity as int, start, end)
    }

    pub closed spec fn wf(&self) -> bool {
        &&& self.shape.wf()
        &&& self.data@.len() == self.shape.capacity * self.shape.channels
    }
}

impl Reader {
    pub closed spec fn spec_shape(&self) -> Shape {
        self.shape
    }

    /// Absolute index of the next frame that this reader has not consumed.
    pub closed spec fn spec_position(&self) -> nat {
        self.cursor as nat
    }

    /// How many times this reader has been overtaken.
    pub closed spec fn spec_laps(&self) -> nat {
        self.laps as nat
    }

    /// This reader reads that ring.
    pub open spec fn reads(&self, ring: &Producer) -> bool {
        ring.wf() && self.spec_shape() == ring.spec_shape()
    }
}

/// The samples of each source plane.
pub open spec fn planes(sources: Seq<&[u32]>) -> Seq<Seq<u32>> {
    Seq::new(sources.len(), |p: int| sources[p]@)
}

/// `after` is `before` with `frames` frames of `sources` written at its head: every frame that the
/// ring still holds is what it was, or the source sample of its channel. Channels past the last
/// plane take the last plane.
pub open spec fn appended(
    before: &Producer,
    after: &Producer,
    sources: Seq<Seq<u32>>,
    frames: int,
) -> bool {
    &&& after.wf()
    &&& after.spec_shape() == before.spec_shape()
    &&& after.spec_written() == before.spec_written() + frames
    &&& forall|c: int, f: int|
        0 <= c < before.spec_shape().channels && after.spec_holds(f, f + 1)
            ==> #[trigger] after.sample(c, f) == if f < before.spec_written() {
            before.sample(c, f)
        } else {
            sources[clamp_channel(c, sources.len() as int)][f - before.spec_written()]
        }
}

/// What a ring holds for a frame once `seam` dead frames and then a block were written to it.
pub open spec fn recorded_sample(
    before: &Producer,
    sources: Seq<Seq<u32>>,
    seam: int,
    channel: int,
    frame: int,
) -> u32 {
    let start = before.spec_written() + seam;
    if frame < before.spec_written() {
        before.sample(channel, frame)
    } else if frame < start {
        0
    } else {
        sources[clamp_channel(channel, sources.len() as int)][frame - start]
    }
}

/// `after` is `before` with `seam` dead frames and then `frames` frames of `sources` written at its
/// head.
pub open spec fn recorded(
    before: &Producer,
    after: &Producer,
    sources: Seq<Seq<u32>>,
    seam: int,
    frames: int,
) -> bool {
    &&& after.wf()
    &&& after.spec_shape() == before.spec_shape()
    &&& after.spec_written() == before.spec_written() + seam + frames
    &&& forall|c: int, f: int|
        0 <= c < before.spec_shape().channels && after.spec_holds(f, f + 1)
            ==> #[trigger] after.sample(c, f) == recorded_sample(before, sources, seam, c, f)
}

/// The producer has overtaken a reader: more was written behind it than the ring holds.
pub open spec fn lapped(reader: &Reader, head: int) -> bool {
    head - reader.spec_position() > reader.spec_shape().capacity
}

/// `after` is `before` once it was asked what it has left to read of a ring with its head at
/// `head`, and `frames` is the answer. A reader that was lapped resumes at the oldest frame there
/// is, and the lap is counted.
pub open spec fn drawn_level(before: &Reader, after: &Reader, head: int, frames: int) -> bool {
    &&& after.spec_shape() == before.spec_shape()
    &&& after.spec_position() + frames == head
    &&& frames == if lapped(before, head) {
        before.spec_shape().capacity as int
    } else {
        head - before.spec_position()
    }
    &&& after.spec_laps() == before.spec_laps() + if lapped(before, head) {
        1int
    } else {
        0int
    }
}

/// One plane of silence.
pub open spec fn silence(frames: nat) -> Seq<Seq<u32>> {
    seq![Seq::new(frames, |i: int| 0u32)]
}

/// Creates a ring and returns its two halves.
///
/// `capacity` is in frames and has to be a power of two; a ring needs at least one channel.
pub fn ring(capacity: usize, channels: usize, sample_rate: u32) -> (halves: (Producer, Reader))
    requires
        exists|k: nat| capacity == pow2(k),
        channels > 0,
        capacity * channels <= usize::MAX,
    ensures
        halves.1.reads(&halves.0),
        halves.0.spec_shape() == (Shape { capacity, channels, sample_rate }),
        halves.0.spec_written() == 0,
        halves.1.spec_position() == 0,
        halves.1.spec_laps() == 0,
        forall|c: int, f: int|
            0 <= c < channels && 0 <= f ==> #[trigger] halves.0.sample(c, f) == 0,
{
    proof {
        let k = choose|k: nat| capacity == pow2(k);
        lemma_pow2_pos(k);
    }
    let shape = Shape { capacity, channels, sample_rate };
    let producer = Producer { data: vec![0u32;capacity * channels], write: 0, shape };
    assert forall|c: int, f: int| 0 <= c < channels && 0 <= f implies #[trigger] producer.sample(
        c,
        f,
    ) == 0 by {
        lemma_mod_bound(f, capacity as int);
        lemma_cell_bound(c, f % capacity as int, capacity as int, channels as int);
    }
    (producer, Reader { shape, cursor: 0, laps: 0 })
}

/// How far slot `k` lies behind `offset`, going forward round the ring.
spec fn ahead(k: int, offset: int, capacity: int) -> int {
    if k >= offset {
        k - offset
    } else {
        k + capacity - offset
    }
}

/// What slot `k` of a plane holds once `count` samples of `source` were stored from `offset` on.
spec fn stored(
    before: Seq<u32>,
    source: Seq<u32>,
    offset: int,
    count: int,
    capacity: int,
    base: int,
    k: int,
) -> u32 {
    if ahead(k, offset, capacity) < count {
        source[ahead(k, offset, capacity)]
    } else {
        before[base + k]
    }
}

/// The slots of two frames less than a capacity apart lie as far apart as the frames do.
proof fn lemma_ahead(start: int, frame: int, capacity: int)
    requires
        capacity > 0,
        start - capacity <= frame < start + capacity,
    ensures
        0 <= slot_of(start, capacity) < capacity,
        0 <= slot_of(frame, capacity) < capacity,
        ahead(slot_of(frame, capacity), slot_of(start, capacity), capacity) == if frame >= start {
            frame - start
        } else {
            frame - start + capacity
        },
{
    let offset = slot_of(start, capacity);
    let q = start / capacity;
    let d = frame - start;
    lemma_mod_bound(start, capacity);
    lemma_fundamental_div_mod(start, capacity);
    let r = offset + d;
    assert(capacity * (q + 1) == capacity * q + capacity) by (nonlinear_arith);
    assert(capacity * (q - 1) == capacity * q - capacity) by (nonlinear_arith);
    if r < 0 {
        lemma_fundamental_div_mod_converse(frame, capacity, q - 1, r + capacity);
    } else if r < capacity {
        lemma_fundamental_div_mod_converse(frame, capacity, q, r);
    } else {
        lemma_fundamental_div_mod_converse(frame, capacity, q + 1, r - capacity);
    }
}

impl Producer {
    pub fn capacity(&self) -> (capacity: usize)
        ensures
            capacity == self.spec_shape().capacity,
    {
        self.shape.capacity
    }

    pub fn channels(&self) -> (channels: usize)
        ensures
            channels == self.spec_shape().channels,
    {
        self.shape.channels
    }

    pub fn sample_rate(&self) -> (sample_rate: u32)
        ensures
            sample_rate == self.spec_shape().sample_rate,
    {
        self.shape.sample_rate
    }

    /// Frames written so far. Monotonic for the life of the ring.
    pub fn written(&self) -> (written: u64)
        ensures
            written == self.spec_written(),
    {
        self.write
    }

    /// An additional independent reader, positioned at the newest frame.
    pub fn reader(&self) -> (reader: Reader)
        requires
            self.wf(),
        ensures
            reader.reads(self),
            reader.spec_position() == self.spec_written(),
            reader.spec_laps() == 0,
    {
        Reader { shape: self.shape, cursor: self.write, laps: 0 }
    }

    /// Producer entry point. Real-time safe: no allocation, no locking, and no read of any
    /// reader's state.
    ///
    /// `sources` may hold fewer planes than the ring has channels, in which case the last one is
    /// duplicated: that is how a mono input fills a stereo ring. A block longer than the ring
    /// would lap itself inside the call, so it is not accepted.
    pub fn write(&mut self, sources: &[&[u32]], frames: usize)
        requires
            old(self).wf(),
            sources@.len() > 0,
            forall|p: int| 0 <= p < sources@.len() ==> (#[trigger] sources@[p])@.len() >= frames,
            frames <= old(self).spec_shape().capacity,
            old(self).spec_written() + frames <= u64::MAX,
        ensures
            appended(old(self), final(self), planes(sources@), frames as int),
    {
        if frames == 0 {
            return;
        }
        let ghost before = self.data@;
        let ghost old_self = *self;
        let capacity: usize = self.shape.capacity;
        let channels: usize = self.shape.channels;
        let start: u64 = self.write;
        let offset: usize = (start % (capacity as u64)) as usize;
        let run: usize = self.shape.contiguous(start, frames);
        let mut c: usize = 0;
        while c < channels
            invariant
                c <= channels,
                capacity > 0,
                capacity * channels <= usize::MAX,
                before.len() == capacity * channels,
                self.data@.len() == before.len(),
                self.shape == old_self.shape,
                self.write == old_self.write,
                offset < capacity,
                0 < frames <= capacity,
                run == if frames < capacity - offset {
                    frames as int
                } else {
                    capacity - offset
                },
                sources@.len() > 0,
                forall|p: int|
                    0 <= p < sources@.len() ==> (#[trigger] sources@[p])@.len() >= frames,
                forall|d: int, k: int|
                    #![trigger self.data@[d * capacity + k]]
                    0 <= d < c && 0 <= k < capacity ==> self.data@[d * capacity + k] == stored(
                        before,
                        sources@[clamp_channel(d, sources@.len() as int)]@,
                        offset as int,
                        frames as int,
                        capacity as int,
                        d * capacity,
                        k,
                    ),
                forall|d: int, k: int|
                    #![trigger self.data@[d * capacity + k]]
                    c <= d < channels && 0 <= k < capacity ==> self.data@[d * capacity + k]
                        == before[d * capacity + k],
            decreases channels - c,
        {
            let source: &[u32] = if c < sources.len() {
                sources[c]
            } else {
                sources[sources.len() - 1]
            };
            proof {
                lemma_cell_bound(c as int, 0, capacity as int, channels as int);
            }
            let plane: usize = c * capacity;
            let ghost entry = self.data@;
            let mut i: usize = 0;
            while i < frames
                invariant
                    i <= frames,
                    c < channels,
                    plane == c * capacity,
                    capacity > 0,
                    capacity * channels <= usize::MAX,
                    entry.len() == capacity * channels,
                    self.data@.len() == entry.len(),
                    self.shape == old_self.shape,
                    self.write == old_self.write,
                    offset < capacity,
                    0 < frames <= capacity,
                    run == if frames < capacity - offset {
                        frames as int
                    } else {
                        capacity - offset
                    },
                    source@.len() >= frames,
                    forall|k: int|
                        #![trigger self.data@[c * capacity + k]]
                        0 <= k < capacity ==> self.data@[c * capacity + k] == stored(
                            entry,
                            source@,
                            offset as int,
                            i as int,
                            capacity as int,
                            c * capacity,
                            k,
                        ),
                    forall|d: int, k: int|
                        #![trigger self.data@[d * capacity + k]]
                        0 <= d < channels && d != c && 0 <= k < capacity ==> self.data@[d * capacity
                            + k] == entry[d * capacity + k],
                decreases frames - i,
            {
                let within: usize = if i < run {
                    offset + i
                } else {
                    i - run
                };
                proof {
                    lemma_cell_bound(c as int, within as int, capacity as int, channels as int);
                }
                let ghost earlier = self.data@;
                self.data.set(plane + within, source[i]);
                assert forall|d: int, k: int|
                    #![trigger self.data@[d * capacity + k]]
                    0 <= d < channels && 0 <= k < capacity && !(d == c && k
                        == within) implies self.data@[d * capacity + k] == earlier[d * capacity
                    + k] by {
                    lemma_cell_bound(d, k, capacity as int, channels as int);
                    if d * capacity + k == plane + within {
                        lemma_cells_differ(d, k, c as int, within as int, capacity as int);
                    }
                }
                assert(ahead(within as int, offset as int, capacity as int) == i);
                assert forall|k: int| 0 <= k < capacity && k != within implies #[trigger] ahead(
                    k,
                    offset as int,
                    capacity as int,
                ) != i by {}
                i = i + 1;
            }
            c = c + 1;
        }
        self.write = start + frames as u64;
        assert forall|c: int, f: int|
            0 <= c < channels && self.spec_holds(f, f + 1) implies #[trigger] self.sample(c, f)
            == if f < old_self.spec_written() {
            old_self.sample(c, f)
        } else {
            sources@[clamp_channel(c, sources@.len() as int)]@[f - old_self.spec_written()]
        } by {
            let k = slot_of(f, capacity as int);
            lemma_ahead(start as int, f, capacity as int);
            assert(self.data@[c * capacity + k] == stored(
                before,
                sources@[clamp_channel(c, sources@.len() as int)]@,
                offset as int,
                frames as int,
                capacity as int,
                c * capacity,
                k,
            ));
        }
    }

    /// Writes `frames` dead frames to every channel, of which there may be more than the ring has
    /// room for.
    pub fn write_silence(&mut self, frames: u64)
        requires
            old(self).wf(),
            old(self).spec_written() + frames <= u64::MAX,
        ensures
            appended(old(self), final(self), silence(frames as nat), frames as int),
    {
        let zeros: [u32; 256] = [0u32; 256];
        let mut left: u64 = frames;
        let ghost before = *self;
        while left > 0
            invariant
                left <= frames,
                before.wf(),
                zeros@.len() == 256,
                forall|i: int| 0 <= i < 256 ==> zeros@[i] == 0,
                before.spec_written() + frames <= u64::MAX,
                appended(&before, self, silence((frames - left) as nat), frames - left),
            decreases left,
        {
            let ghost so_far = *self;
            let mut run: usize = if left < 256 {
                left as usize
            } else {
                256
            };
            if run > self.shape.capacity {
                run = self.shape.capacity;
            }
            let source: [&[u32]; 1] = [zeros.as_slice()];
            self.write(&source, run);
            proof {
                assert(planes(source@)[0] == zeros@);
                assert forall|c: int, f: int|
                    0 <= c < before.spec_shape().channels && self.spec_holds(f, f + 1) implies
                    #[trigger] self.sample(c, f) == if f < before.spec_written() {
                    before.sample(c, f)
                } else {
                    0
                } by {
                    if f < so_far.spec_written() {
                        assert(so_far.spec_holds(f, f + 1));
                    }
                }
            }
            left = left - run as u64;
        }
    }

    /// Writes a captured block behind the dead frames that go in front of it.
    pub fn record(&mut self, sources: &[&[u32]], seam: u64, frames: usize)
        requires
            old(self).wf(),
            sources@.len() > 0,
            forall|p: int| 0 <= p < sources@.len() ==> (#[trigger] sources@[p])@.len() >= frames,
            frames <= old(self).spec_shape().capacity,
            old(self).spec_written() + seam + frames <= u64::MAX,
        ensures
            recorded(old(self), final(self), planes(sources@), seam as int, frames as int),
    {
        self.write_silence(seam);
        let ghost silent = *self;
        self.write(sources, frames);
        proof {
            assert forall|c: int, f: int|
                0 <= c < self.spec_shape().channels && self.spec_holds(f, f + 1) implies
                #[trigger] self.sample(c, f) == recorded_sample(
                old(self),
                planes(sources@),
                seam as int,
                c,
                f,
            ) by {
                if f < silent.spec_written() {
                    assert(silent.spec_holds(f, f + 1));
                }
            }
        }
    }
}

impl Reader {
    pub fn shape(&self) -> (shape: Shape)
        ensures
            shape == self.spec_shape(),
    {
        self.shape
    }

    pub fn capacity(&self) -> (capacity: usize)
        ensures
            capacity == self.spec_shape().capacity,
    {
        self.shape.capacity
    }

    pub fn channels(&self) -> (channels: usize)
        ensures
            channels == self.spec_shape().channels,
    {
        self.shape.channels
    }

    pub fn sample_rate(&self) -> (sample_rate: u32)
        ensures
            sample_rate == self.spec_shape().sample_rate,
    {
        self.shape.sample_rate
    }

    /// Absolute index one past the newest frame of the ring.
    pub fn head(&self, ring: &Producer) -> (head: u64)
        requires
            self.reads(ring),
        ensures
            head == ring.spec_written(),
    {
        ring.write
    }

    /// Absolute index of the next frame that this reader has not consumed.
    pub fn position(&self) -> (position: u64)
        ensures
            position == self.spec_position(),
    {
        self.cursor
    }

    /// How many times this reader has been overtaken and had to skip forward.
    pub fn laps(&self) -> (laps: u64)
        ensures
            laps == self.spec_laps(),
    {
        self.laps
    }

    /// Frames published but not yet consumed.
    ///
    /// If the producer has lapped this reader the backlog is unrecoverable, so the cursor jumps to
    /// the oldest frame that still exists and the lap is counted.
    pub fn available(&mut self, ring: &Producer) -> (frames: usize)
        requires
            old(self).reads(ring),
            old(self).spec_position() <= ring.spec_written(),
            lapped(old(self), ring.spec_written() as int) ==> old(self).spec_laps() < u64::MAX,
        ensures
            final(self).reads(ring),
            drawn_level(old(self), final(self), ring.spec_written() as int, frames as int),
    {
        self.available_at(ring.write)
    }

    /// Frames published but not yet consumed once `head` frames were written.
    pub fn available_at(&mut self, head: u64) -> (frames: usize)
        requires
            old(self).spec_position() <= head,
            lapped(old(self), head as int) ==> old(self).spec_laps() < u64::MAX,
        ensures
            drawn_level(old(self), final(self), head as int, frames as int),
    {
        let behind: u64 = head - self.cursor;
        if behind > self.shape.capacity as u64 {
            self.laps = self.laps + 1;
            self.cursor = head - self.shape.capacity as u64;
            return self.shape.capacity;
        }
        behind as usize
    }

    /// Counts `frames` frames as consumed.
    pub fn advance(&mut self, frames: usize)
        requires
            old(self).spec_position() + frames <= u64::MAX,
        ensures
            final(self).spec_shape() == old(self).spec_shape(),
            final(self).spec_position() == old(self).spec_position() + frames,
            final(self).spec_laps() == old(self).spec_laps(),
    {
        self.cursor = self.cursor + frames as u64;
    }

    /// Discard any backlog and jump to the newest frame.
    pub fn skip_to_head(&mut self, ring: &Producer)
        requires
            old(self).reads(ring),
        ensures
            final(self).reads(ring),
            final(self).spec_position() == ring.spec_written(),
            final(self).spec_laps() == old(self).spec_laps(),
    {
        self.cursor = ring.write;
    }

    /// The oldest absolute frame index still present in the ring.
    pub fn oldest(&self, ring: &Producer) -> (oldest: u64)
        requires
            self.reads(ring),
        ensures
            oldest == oldest_of(ring.spec_written() as int, ring.spec_shape().capacity as int),
    {
        self.shape.oldest(ring.write)
    }

    /// True when `[start, end)` is entirely inside the window the ring still holds.
    ///
    /// This is what makes a stale selection fail closed. A selection is stored as absolute frame
    /// indices precisely so that the question "is what I picked still here" has an answer.
    pub fn holds(&self, ring: &Producer, start: u64, end: u64) -> (holds: bool)
        requires
            self.reads(ring),
        ensures
            holds == ring.spec_holds(start as int, end as int),
    {
        self.shape.holds(ring.write, start, end)
    }

    /// Copies `out.len()` frames of one channel, starting at absolute frame `start`, into `out`.
    ///
    /// Returns `false` without touching `out` when the range is not wholly in the ring. Reading a
    /// lapped range would return a seam of old and new audio that looks perfectly plausible, which
    /// is the worst possible failure for something about to be dropped into somebody's session.
    pub fn read_into(&self, ring: &Producer, channel: usize, start: u64, out: &mut [u32]) -> (read:
        bool)
        requires
            self.reads(ring),
            start + old(out)@.len() <= u64::MAX,
        ensures
            read == ring.spec_holds(start as int, start + old(out)@.len()),
            !read ==> final(out)@ == old(out)@,
            read ==> final(out)@ == ring.span(channel as int, start as int, old(out)@.len()),
    {
        let frames: usize = out.len();
        if !self.shape.holds(ring.write, start, start + frames as u64) {
            return false;
        }
        let plane: usize = self.shape.clamped(channel);
        let mut i: usize = 0;
        while i < frames
            invariant
                i <= frames,
                frames == out@.len(),
                self.reads(ring),
                start + frames <= u64::MAX,
                plane == clamp_channel(channel as int, ring.spec_shape().channels as int),
                plane < ring.spec_shape().channels,
                forall|n: int| 0 <= n < i ==> out@[n] == ring.sample(plane as int, start + n),
            decreases frames - i,
        {
            let at: usize = self.shape.slot(plane, start + i as u64);
            out[i] = ring.data[at];
            i = i + 1;
        }
        assert(out@ =~= ring.span(channel as int, start as int, old(out)@.len()));
        true
    }
}

/// What was written is what is read: right after a block went in, reading its frames is accepted
/// and gives each channel the source plane that filled it.
pub proof fn law_round_trip(
    before: &Producer,
    after: &Producer,
    sources: Seq<Seq<u32>>,
    frames: nat,
    channel: int,
)
    requires
        appended(before, after, sources, frames as int),
        0 < sources.len(),
        forall|p: int| 0 <= p < sources.len() ==> (#[trigger] sources[p]).len() >= frames,
        frames <= before.spec_shape().capacity,
        before.spec_shape().wf(),
        0 <= channel < before.spec_shape().channels,
    ensures
        after.spec_holds(before.spec_written() as int, before.spec_written() + frames as int),
        after.span(channel, before.spec_written() as int, frames) == sources[clamp_channel(
            channel,
            sources.len() as int,
        )].take(frames as int),
{
    let start = before.spec_written() as int;
    let source = sources[clamp_channel(channel, sources.len() as int)];
    assert forall|i: int| 0 <= i < frames implies #[trigger] after.span(channel, start, frames)[i]
        == source[i] by {
        assert(after.spec_holds(start + i, start + i + 1));
        assert(after.sample(channel, start + i) == source[i]);
    }
    assert(after.span(channel, start, frames) =~= source.take(frames as int));
}

/// A mono source fills every channel.
pub proof fn law_mono_fills_every_channel(
    before: &Producer,
    after: &Producer,
    mono: Seq<u32>,
    frames: nat,
    channel: int,
)
    requires
        appended(before, after, seq![mono], frames as int),
        mono.len() >= frames,
        frames <= before.spec_shape().capacity,
        before.spec_shape().wf(),
        0 <= channel < before.spec_shape().channels,
    ensures
        after.span(channel, before.spec_written() as int, frames) == mono.take(frames as int),
{
    law_round_trip(before, after, seq![mono], frames, channel);
}

/// Writing on does not change what is still held: a range that was in the ring and still is reads
/// the same.
pub proof fn law_held_audio_is_untouched(
    before: &Producer,
    after: &Producer,
    sources: Seq<Seq<u32>>,
    written: int,
    channel: int,
    start: int,
    frames: nat,
)
    requires
        appended(before, after, sources, written),
        before.spec_shape().wf(),
        0 <= channel,
        before.spec_holds(start, start + frames),
        after.spec_holds(start, start + frames),
    ensures
        after.span(channel, start, frames) == before.span(channel, start, frames),
{
    let c = clamp_channel(channel, before.spec_shape().channels as int);
    assert forall|i: int| 0 <= i < frames implies #[trigger] after.span(channel, start, frames)[i]
        == before.span(channel, start, frames)[i] by {
        assert(after.spec_holds(start + i, start + i + 1));
        assert(after.sample(c, start + i) == before.sample(c, start + i));
    }
    assert(after.span(channel, start, frames) =~= before.span(channel, start, frames));
}

/// A range that the writer has overtaken is refused from then on, however much is written.
pub proof fn law_overtaken_is_refused_for_good(
    before: &Producer,
    after: &Producer,
    sources: Seq<Seq<u32>>,
    written: int,
    start: int,
    end: int,
)
    requires
        appended(before, after, sources, written),
        written >= 0,
        start < oldest_of(before.spec_written() as int, before.spec_shape().capacity as int),
    ensures
        !before.spec_holds(start, end),
        !after.spec_holds(start, end),
{
}

/// Asking again at once gives the same answer, moves nothing and counts no further lap.
pub proof fn law_a_lap_is_counted_once(
    first: &Reader,
    second: &Reader,
    third: &Reader,
    head: int,
    frames: int,
    again: int,
)
    requires
        first.spec_position() <= head,
        drawn_level(first, second, head, frames),
        drawn_level(second, third, head, again),
    ensures
        again == frames,
        third.spec_position() == second.spec_position(),
        third.spec_laps() == second.spec_laps(),
        first.spec_laps() <= second.spec_laps() <= first.spec_laps() + 1,
        second.spec_laps() == first.spec_laps() <==> head - first.spec_position()
            <= first.spec_shape().capacity,
{
}

/// A reader at the head has nothing to read, and no lap is counted for what it left out.
pub proof fn law_nothing_is_left_at_the_head(
    skipped: &Reader,
    after: &Reader,
    head: int,
    frames: int,
)
    requires
        skipped.spec_position() == head,
        drawn_level(skipped, after, head, frames),
    ensures
        frames == 0,
        after.spec_position() == head,
        after.spec_laps() == skipped.spec_laps(),
{
}

} // verus!
