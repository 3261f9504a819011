//! The audio ring.
use crate::ring::{Producer, Reader};
use vstd::arithmetic::div_mod::*;
use vstd::prelude::*;

verus! {

/// A ring holds what was written last, as much as it has room for: a range is held where it is one,
/// was written, and lies no further back than that.
pub proof fn law_a_ring_holds_what_was_written_last(head: int, capacity: int, start: int, end: int)
    requires
        0 <= head,
        0 <= capacity,
    ensures
        crate::ring::held(head, capacity, start, end) <==> 0 <= start <= end <= head && head - start
            <= capacity,
        crate::ring::oldest_of(head, capacity) >= 0,
        head <= capacity ==> crate::ring::oldest_of(head, capacity) == 0,
        head >= capacity ==> crate::ring::oldest_of(head, capacity) + capacity == head,
{
}

/// What can be read from a ring is what it holds.
pub proof fn law_a_ring_says_what_it_holds(ring: &Producer, start: int, end: int)
    ensures
        ring.spec_holds(start, end) <==> 0 <= start <= end <= ring.spec_written()
            && ring.spec_written() - start <= ring.spec_shape().capacity,
{
}

/// Frames that a ring holds at the same time never share a slot, and a frame takes the slot of the
/// one a whole ring before it.
pub proof fn law_held_frames_have_slots_of_their_own(a: int, b: int, capacity: int)
    requires
        0 <= a < b,
        capacity > 0,
    ensures
        0 <= crate::ring::slot_of(a, capacity) < capacity,
        b - a < capacity ==> crate::ring::slot_of(a, capacity) != crate::ring::slot_of(b, capacity),
        b - a == capacity ==> crate::ring::slot_of(a, capacity) == crate::ring::slot_of(
            b,
            capacity,
        ),
{
    lemma_mod_bound(a, capacity);
    lemma_fundamental_div_mod(a, capacity);
    lemma_fundamental_div_mod(b, capacity);
    if b - a == capacity {
        lemma_mod_add_multiples_vanish(a, capacity);
    }
    if b - a < capacity && a % capacity == b % capacity {
        let p = a / capacity;
        let q = b / capacity;
        assert(capacity * q - capacity * p == capacity * (q - p)) by (nonlinear_arith);
        assert(false) by (nonlinear_arith)
            requires
                0 < capacity * (q - p) < capacity,
                capacity > 0,
        ;
    }
}

/// A channel is read for itself, and past the last one there is only the last one.
pub proof fn law_past_the_last_channel_is_the_last(channel: int, channels: int)
    requires
        0 <= channel,
        0 < channels,
    ensures
        channel < channels ==> crate::ring::clamp_channel(channel, channels) == channel,
        channel >= channels ==> crate::ring::clamp_channel(channel, channels) == channels - 1,
{
}

/// A block that was written is read back from where it went, plane by plane, and a channel without
/// a plane of its own reads the last one. What was there before and still is reads as it did.
pub proof fn law_what_is_written_is_read(
    before: &Producer,
    after: &Producer,
    sources: Seq<Seq<u32>>,
    frames: int,
    channel: int,
    i: int,
)
    requires
        crate::ring::appended(before, after, sources, frames),
        before.spec_shape().wf(),
        0 < sources.len(),
        0 <= frames <= before.spec_shape().capacity,
        0 <= channel < before.spec_shape().channels,
    ensures
        after.spec_written() == before.spec_written() + frames,
        after.spec_shape() == before.spec_shape(),
        0 <= i < frames && channel < sources.len() ==> after.sample(
            channel,
            before.spec_written() + i,
        ) == sources[channel][i],
        0 <= i < frames && channel >= sources.len() ==> after.sample(
            channel,
            before.spec_written() + i,
        ) == sources.last()[i],
        0 <= i < before.spec_written() && after.spec_written() - i <= before.spec_shape().capacity
            ==> after.sample(channel, i) == before.sample(channel, i),
{
    if 0 <= i < frames {
        let f = before.spec_written() + i;
        assert(after.spec_holds(f, f + 1));
        assert(after.sample(channel, f) == after.sample(channel, f));
    }
    if 0 <= i < before.spec_written() && after.spec_written() - i <= before.spec_shape().capacity {
        assert(after.spec_holds(i, i + 1));
        assert(after.sample(channel, i) == after.sample(channel, i));
    }
}

/// A captured block goes behind the dead frames of its splice, which are silent, and these behind
/// what was there.
pub proof fn law_a_splice_is_silent(
    before: &Producer,
    after: &Producer,
    sources: Seq<Seq<u32>>,
    seam: int,
    frames: int,
    channel: int,
    f: int,
)
    requires
        crate::ring::recorded(before, after, sources, seam, frames),
        0 <= seam,
        0 <= frames,
        0 < sources.len(),
        0 <= channel < before.spec_shape().channels,
        0 <= f < after.spec_written(),
        after.spec_written() - f <= before.spec_shape().capacity,
    ensures
        after.spec_written() == before.spec_written() + seam + frames,
        f < before.spec_written() ==> after.sample(channel, f) == before.sample(channel, f),
        before.spec_written() <= f < before.spec_written() + seam ==> after.sample(channel, f) == 0,
        f >= before.spec_written() + seam && channel < sources.len() ==> after.sample(channel, f)
            == sources[channel][f - before.spec_written() - seam],
        f >= before.spec_written() + seam && channel >= sources.len() ==> after.sample(channel, f)
            == sources.last()[f - before.spec_written() - seam],
{
    assert(after.spec_holds(f, f + 1));
    assert(after.sample(channel, f) == after.sample(channel, f));
}

/// Silence is one plane of zeros, as long as it was asked for.
pub proof fn law_silence_is_zeros(frames: nat, i: int)
    requires
        0 <= i < frames,
    ensures
        crate::ring::silence(frames).len() == 1,
        crate::ring::silence(frames)[0].len() == frames,
        crate::ring::silence(frames)[0][i] == 0,
{
}

/// A reader is told what it has left: everything behind the head that it has not read, or a whole
/// ring of it where it was overtaken, and that is counted.
pub proof fn law_a_reader_is_told_what_it_has_left(
    before: &Reader,
    after: &Reader,
    head: int,
    frames: int,
)
    requires
        crate::ring::drawn_level(before, after, head, frames),
        before.spec_position() <= head,
    ensures
        ({
            let backlog = head - before.spec_position();
            let capacity = before.spec_shape().capacity;
            &&& backlog <= capacity ==> frames == backlog && after.spec_position()
                == before.spec_position() && after.spec_laps() == before.spec_laps()
            &&& backlog > capacity ==> frames == capacity && after.spec_position() == head
                - capacity && after.spec_laps() == before.spec_laps() + 1
            &&& after.spec_shape() == before.spec_shape()
        }),
{
}

/// A range of a channel reads as its samples do, in order.
pub proof fn law_a_range_is_its_samples(
    ring: &Producer,
    channel: int,
    start: int,
    frames: nat,
    i: int,
)
    requires
        0 <= channel,
        0 < ring.spec_shape().channels,
        0 <= i < frames,
    ensures
        ring.span(channel, start, frames).len() == frames,
        channel < ring.spec_shape().channels ==> ring.span(channel, start, frames)[i]
            == ring.sample(channel, start + i),
        channel >= ring.spec_shape().channels ==> ring.span(channel, start, frames)[i]
            == ring.sample(ring.spec_shape().channels - 1, start + i),
{
}

} // verus!
