//! The ring as the device sees it, and the per-column reduction that turns it into a waveform,
//! without the device: what has to be uploaded, and what comes back.
use crate::bytes::push_le32;
use crate::fft::word_at;
use crate::view::Column;
use vstd::arithmetic::div_mod::*;
use vstd::arithmetic::power2::*;
use vstd::prelude::*;

verus! {

/// A stretch of the ring that is contiguous in memory: `frames` frames from absolute frame `from`
/// on, which lie at `offset` of their plane.
#[derive(Clone, Copy, Debug, PartialEq, Eq, Structural)]
pub struct Run {
    pub from: u64,
    pub offset: usize,
    pub frames: usize,
}

/// What is known of a copy of the audio ring that is kept up to date incrementally.
///
/// Only what has been captured since the last time is copied, and the mirror wraps exactly as the
/// ring does.
#[derive(Debug)]
pub struct RingMirror {
    capacity: usize,
    channels: usize,
    cursor: u64,
}

/// The first frame that is still worth copying: where the copy stands, or the oldest frame there
/// is where it has been lapped.
pub open spec fn resume_at(cursor: u64, head: u64, capacity: int) -> int {
    if head - cursor > capacity {
        head - capacity
    } else {
        cursor as int
    }
}

/// The contiguous stretches from `from` to `head`.
pub open spec fn runs_from(from: int, head: int, capacity: int) -> Seq<Run>
    decreases head - from,
{
    if from >= head || capacity <= 0 {
        Seq::empty()
    } else {
        let offset = from % capacity;
        let frames = if head - from < capacity - offset {
            head - from
        } else {
            capacity - offset
        };
        if frames <= 0 {
            Seq::empty()
        } else {
            seq![
                Run { from: from as u64, offset: offset as usize, frames: frames as usize },
            ] + runs_from(from + frames, head, capacity)
        }
    }
}

impl RingMirror {
    pub closed spec fn spec_capacity(&self) -> usize {
        self.capacity
    }

    pub closed spec fn spec_channels(&self) -> usize {
        self.channels
    }

    /// The first frame that has not been copied.
    pub closed spec fn spec_cursor(&self) -> u64 {
        self.cursor
    }

    pub closed spec fn wf(&self) -> bool {
        self.capacity > 0 && self.capacity * self.channels * 4 <= u64::MAX
    }

    /// A mirror inherits the ring's power-of-two capacity.
    pub fn new(capacity: usize, channels: usize) -> (mirror: RingMirror)
        requires
            exists|k: nat| capacity == pow2(k),
            capacity * channels * 4 <= u64::MAX,
        ensures
            mirror.wf(),
            mirror.spec_capacity() == capacity,
            mirror.spec_channels() == channels,
            mirror.spec_cursor() == 0,
    {
        proof {
            let k = choose|k: nat| capacity == pow2(k);
            lemma_pow2_pos(k);
        }
        RingMirror { capacity, channels, cursor: 0 }
    }

    pub fn capacity(&self) -> (capacity: usize)
        ensures
            capacity == self.spec_capacity(),
    {
        self.capacity
    }

    pub fn channels(&self) -> (channels: usize)
        ensures
            channels == self.spec_channels(),
    {
        self.channels
    }

    /// What has to be copied once `head` frames were written: contiguous stretches, oldest first.
    ///
    /// A copy that has been lapped cannot recover what it missed, so it jumps to the oldest frame
    /// still present. Stretches stop at the wrap, so that every upload is contiguous in the mirror
    /// as well as in the ring.
    pub fn pending(&self, head: u64) -> (runs: Vec<Run>)
        requires
            self.wf(),
        ensures
            runs@ == runs_from(
                resume_at(self.spec_cursor(), head, self.spec_capacity() as int),
                head as int,
                self.spec_capacity() as int,
            ),
    {
        let mut runs: Vec<Run> = Vec::new();
        let mut from: u64 = self.cursor;
        if head > from && head - from > self.capacity as u64 {
            from = head - self.capacity as u64;
        }
        let ghost all = runs_from(from as int, head as int, self.capacity as int);
        assert(all =~= runs@ + runs_from(from as int, head as int, self.capacity as int));
        while from < head
            invariant
                self.wf(),
                all == runs@ + runs_from(from as int, head as int, self.capacity as int),
                from < head ==> head - from <= self.capacity,
            decreases head - from,
        {
            let offset: usize = (from % (self.capacity as u64)) as usize;
            let left: usize = (head - from) as usize;
            let frames: usize = if left < self.capacity - offset {
                left
            } else {
                self.capacity - offset
            };
            runs.push(Run { from, offset, frames });
            from = from + frames as u64;
            assert(all =~= runs@ + runs_from(from as int, head as int, self.capacity as int));
        }
        assert(runs@ + runs_from(from as int, head as int, self.capacity as int) =~= runs@);
        runs
    }

    /// Where in the mirror's memory a channel of a run goes, in bytes.
    pub fn byte_offset(&self, channel: usize, run: &Run) -> (at: u64)
        requires
            self.wf(),
            channel < self.spec_channels(),
            run.offset < self.spec_capacity(),
        ensures
            at == (channel * self.spec_capacity() + run.offset) * 4,
            at + 4 <= self.spec_capacity() * self.spec_channels() * 4,
    {
        proof {
            let c = self.capacity as int;
            assert(0 <= channel * c && channel * c + run.offset < c * self.channels)
                by (nonlinear_arith)
                requires
                    0 <= channel < self.channels,
                    0 <= run.offset < c,
            ;
            assert(channel * self.capacity <= u64::MAX);
        }
        (channel as u64 * self.capacity as u64 + run.offset as u64) * 4
    }

    /// Everything up to `head` has been copied.
    pub fn synced(&mut self, head: u64)
        ensures
            final(self).wf() == old(self).wf(),
            final(self).spec_capacity() == old(self).spec_capacity(),
            final(self).spec_channels() == old(self).spec_channels(),
            final(self).spec_cursor() == head,
    {
        self.cursor = head;
    }
}

/// The runs of an upload tile what is missing: they follow on each other from where the copy
/// resumes up to the head, each lies where its frames lie in the ring, and none crosses the wrap.
pub proof fn law_runs_tile_what_is_missing(from: int, head: int, capacity: int)
    requires
        0 <= from <= head <= u64::MAX,
        0 < capacity <= usize::MAX,
    ensures
        ({
            let runs = runs_from(from, head, capacity);
            &&& from < head ==> runs.len() > 0 && runs[0].from == from && runs.last().from
                + runs.last().frames == head
            &&& from == head ==> runs.len() == 0
            &&& forall|i: int|
                0 <= i < runs.len() ==> {
                    &&& (#[trigger] runs[i]).offset == runs[i].from as int % capacity
                    &&& 0 < runs[i].frames
                    &&& runs[i].offset + runs[i].frames <= capacity
                }
            &&& forall|i: int|
                0 < i < runs.len() ==> (#[trigger] runs[i]).from == runs[i - 1].from + runs[i
                    - 1].frames
        }),
    decreases head - from,
{
    if from < head {
        let offset = from % capacity;
        lemma_mod_bound(from, capacity);
        let frames = if head - from < capacity - offset {
            head - from
        } else {
            capacity - offset
        };
        law_runs_tile_what_is_missing(from + frames, head, capacity);
        let runs = runs_from(from, head, capacity);
        let rest = runs_from(from + frames, head, capacity);
        let first = Run { from: from as u64, offset: offset as usize, frames: frames as usize };
        assert(runs =~= seq![first] + rest);
        assert forall|i: int| 0 <= i < runs.len() implies {
            &&& (#[trigger] runs[i]).offset == runs[i].from as int % capacity
            &&& 0 < runs[i].frames
            &&& runs[i].offset + runs[i].frames <= capacity
        } by {
            if i > 0 {
                assert(runs[i] == rest[i - 1]);
            }
        }
        assert forall|i: int| 0 < i < runs.len() implies (#[trigger] runs[i]).from == runs[i
            - 1].from + runs[i - 1].frames by {
            assert(runs[i] == rest[i - 1]);
            if i > 1 {
                assert(runs[i - 1] == rest[i - 2]);
            }
        }
        if rest.len() > 0 {
            assert(runs.last() == rest.last());
        }
    }
}

/// Columns as the shader wants them: the slot of the first frame, and the count.
pub open spec fn column_bytes(columns: Seq<Column>, capacity: int) -> Seq<u8>
    decreases columns.len(),
{
    if columns.len() == 0 {
        Seq::empty()
    } else {
        column_bytes(columns.drop_last(), capacity) + crate::bytes::le32(
            columns.last().start as int % capacity,
        ) + crate::bytes::le32(columns.last().count as int)
    }
}

/// Packs columns for upload. Frames are reduced to slots here rather than in the shader, which has
/// no 64-bit integers.
pub fn pack_columns(columns: &[Column], capacity: usize) -> (out: Vec<u8>)
    requires
        0 < capacity <= 0x1_0000_0000,
    ensures
        out@ == column_bytes(columns@, capacity as int),
{
    let mut out: Vec<u8> = Vec::new();
    let mut i: usize = 0;
    assert(columns@.take(0) =~= Seq::empty());
    while i < columns.len()
        invariant
            i <= columns@.len(),
            0 < capacity <= 0x1_0000_0000,
            out@ == column_bytes(columns@.take(i as int), capacity as int),
        decreases columns@.len() - i,
    {
        let column = columns[i];
        assert(columns@.take(i + 1).drop_last() =~= columns@.take(i as int));
        push_le32(&mut out, (column.start % (capacity as u64)) as u32);
        push_le32(&mut out, column.count);
        i = i + 1;
    }
    assert(columns@.take(i as int) =~= columns@);
    out
}

/// The parameters of the reduction: how many columns, the shape of the mirror, and the mix of its
/// first two channels, by the bits of two floats.
pub open spec fn reduce_words(columns: u32, capacity: u32, channels: u32, left: u32, right: u32) -> Seq<
    u32,
> {
    seq![columns, capacity, channels, 0, left, right, 0, 0]
}

pub fn reduce_params(columns: u32, capacity: u32, channels: u32, left: u32, right: u32) -> (out: Vec<
    u8,
>)
    ensures
        out@ == crate::fft::word_bytes(reduce_words(columns, capacity, channels, left, right)),
{
    let words: [u32; 8] = [columns, capacity, channels, 0, left, right, 0, 0];
    assert(words@ =~= reduce_words(columns, capacity, channels, left, right));
    crate::fft::words_to_bytes(&words)
}

/// How many columns are reduced: as many as there is room for.
pub fn reduced_columns(columns: usize, room: u32) -> (count: u32)
    ensures
        count == if columns < room {
            columns as int
        } else {
            room as int
        },
{
    if (columns as u64) < room as u64 {
        columns as u32
    } else {
        room
    }
}

/// One column of the reduced waveform, by the bits of its floats.
#[derive(Clone, Copy, Debug, PartialEq, Eq, Structural)]
pub struct Envelope {
    pub min: u32,
    pub max: u32,
    pub rms: u32,
    /// False where nothing has been captured. Distinct from silence, and drawn differently.
    pub written: bool,
}

/// A float is more than a half: by its bits, positive, past those of a half, and a number.
pub open spec fn more_than_half(bits: int) -> bool {
    0x3F00_0000 < bits <= 0x7F80_0000
}

/// The columns of a reduction, from the bytes of a buffer: four floats each, the last of which
/// says whether anything was there.
pub open spec fn envelopes_of(bytes: Seq<u8>) -> Seq<Envelope> {
    Seq::new(
        bytes.len() / 16,
        |i: int|
            Envelope {
                min: crate::bytes::read_le32(bytes, 16 * i) as u32,
                max: crate::bytes::read_le32(bytes, 16 * i + 4) as u32,
                rms: crate::bytes::read_le32(bytes, 16 * i + 8) as u32,
                written: more_than_half(crate::bytes::read_le32(bytes, 16 * i + 12)),
            },
    )
}

/// Reads a reduction back.
pub fn envelopes(bytes: &[u8]) -> (out: Vec<Envelope>)
    ensures
        out@ == envelopes_of(bytes@),
{
    let total: usize = bytes.len();
    let count: usize = total / 16;
    let mut out: Vec<Envelope> = Vec::new();
    let mut i: usize = 0;
    while i < count
        invariant
            i <= count,
            total == bytes@.len(),
            count == total / 16,
            out@.len() == i,
            forall|k: int| 0 <= k < i ==> #[trigger] out@[k] == envelopes_of(bytes@)[k],
        decreases count - i,
    {
        let flag: u32 = word_at(bytes, 16 * i + 12);
        out.push(
            Envelope {
                min: word_at(bytes, 16 * i),
                max: word_at(bytes, 16 * i + 4),
                rms: word_at(bytes, 16 * i + 8),
                written: flag > 0x3F00_0000 && flag <= 0x7F80_0000,
            },
        );
        i = i + 1;
    }
    assert(out@ =~= envelopes_of(bytes@));
    out
}

} // verus!
