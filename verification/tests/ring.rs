//! The audio ring.
use waveroll::ring::{ring, Shape};

/// Samples as the ring holds them.
fn bits(samples: &[f32]) -> Vec<u32> {
    samples.iter().map(|s| s.to_bits()).collect()
}

fn ramp(from: usize, len: usize) -> Vec<u32> {
    (0..len).map(|i| ((from + i) as f32).to_bits()).collect()
}

#[test]
fn round_trips_a_block() {
    let (mut p, r) = ring(1024, 2, 48_000);
    let a = ramp(0, 128);
    let b = ramp(1000, 128);
    p.write(&[&a, &b], 128);
    let mut out = bits(&[0.0; 128]);
    assert!(r.read_into(&p, 0, 0, &mut out));
    assert_eq!(out, a);
    assert!(r.read_into(&p, 1, 0, &mut out));
    assert_eq!(out, b);
}

#[test]
fn a_mono_source_fills_every_channel() {
    let (mut p, r) = ring(64, 2, 48_000);
    let mono = ramp(0, 32);
    p.write(&[&mono], 32);
    let mut out = bits(&[0.0; 32]);
    assert!(r.read_into(&p, 1, 0, &mut out));
    assert_eq!(out, mono, "the last source plane should be duplicated into channel 1");
}

#[test]
fn a_block_that_straddles_the_wrap_is_contiguous_on_read() {
    let (mut p, r) = ring(64, 1, 48_000);
    // Land the write head 8 frames from the end, then write 32 across the seam.
    let filler = ramp(0, 56);
    p.write(&[&filler], 56);
    let across = ramp(500, 32);
    p.write(&[&across], 32);
    let mut out = bits(&[0.0; 32]);
    assert!(r.read_into(&p, 0, 56, &mut out));
    assert_eq!(out, across);
}

#[test]
fn the_counter_is_monotonic_across_many_wraps() {
    let (mut p, _r) = ring(64, 1, 48_000);
    let block = ramp(0, 16);
    for _ in 0..1000 {
        p.write(&[&block], 16);
    }
    assert_eq!(p.written(), 16_000);
}

#[test]
fn a_lapped_reader_skips_forward_and_counts_it() {
    let (mut p, mut r) = ring(64, 1, 48_000);
    let block = ramp(0, 32);
    for _ in 0..10 {
        p.write(&[&block], 32);
    }
    assert_eq!(r.available(&p), 64, "a lapped reader sees at most the whole ring");
    assert_eq!(r.laps(), 1);
    assert_eq!(r.position(), 320 - 64);
}

#[test]
fn a_range_the_writer_has_overtaken_fails_closed() {
    let (mut p, r) = ring(64, 1, 48_000);
    let block = ramp(0, 32);
    for _ in 0..4 {
        p.write(&[&block], 32);
    }
    let mut out = bits(&[7.0; 16]);
    assert!(!r.read_into(&p, 0, 0, &mut out), "frame 0 is long gone");
    assert_eq!(out, bits(&[7.0; 16]), "a refused read must not touch the output");
    assert!(r.read_into(&p, 0, 112, &mut out), "the newest 16 frames are still there");
}

#[test]
fn a_range_running_past_the_head_fails_closed() {
    let (mut p, r) = ring(64, 1, 48_000);
    let block = ramp(0, 32);
    p.write(&[&block], 32);
    let mut out = bits(&[0.0; 16]);
    assert!(!r.read_into(&p, 0, 24, &mut out), "8 of those 16 frames have not been written yet");
}

#[test]
fn a_new_reader_starts_at_the_head() {
    let (mut p, _r) = ring(64, 1, 48_000);
    let block = ramp(0, 32);
    p.write(&[&block], 32);
    let mut fresh = p.reader();
    assert_eq!(fresh.position(), 32);
    assert_eq!(fresh.available(&p), 0);
}

/// The tail is refused, which is the half of the promise that can be kept.
///
/// A range the writer has already reached cannot be recovered by any means, so the only useful
/// behaviour is to say so. This checks the saying-so, not the recovering.
#[test]
fn a_range_the_writer_has_reached_is_refused() {
    const CAPACITY: usize = 1 << 16;
    let (mut producer, reader) = ring(CAPACITY, 1, 48_000);
    let block = bits(&[1.0; 1024]);
    for _ in 0..(CAPACITY / 1024) * 3 {
        producer.write(&[&block], block.len());
    }

    let head = reader.head(&producer);
    let mut out = bits(&[0.0; 32]);
    assert!(!reader.read_into(&producer, 0, head - CAPACITY as u64 - 1, &mut out), "older than the ring");
    assert!(!reader.read_into(&producer, 0, head - 16, &mut out), "half of it is not written yet");
    assert!(reader.read_into(&producer, 0, head - 32, &mut out), "exactly the newest frames are there");
    assert!(reader.read_into(&producer, 0, head - CAPACITY as u64, &mut out), "and the oldest still held");
}

#[test]
fn a_reader_that_falls_behind_is_told_so_rather_than_reading_rubbish() {
    const CAPACITY: usize = 1 << 12;
    let (mut producer, mut reader) = ring(CAPACITY, 1, 48_000);
    let block = bits(&[1.0; 512]);

    // Lap it several times without the consumer looking.
    for _ in 0..40 {
        producer.write(&[&block], block.len());
    }
    assert_eq!(reader.available(&producer), CAPACITY, "a lapped reader sees at most the whole ring");
    assert!(reader.laps() > 0, "and is told that it was lapped");

    // The oldest frames are genuinely gone, and asking for them is refused.
    let mut out = bits(&[0.0; 16]);
    assert!(!reader.read_into(&producer, 0, 0, &mut out), "frame zero is long overwritten");
    assert!(reader.read_into(&producer, 0, reader.head(&producer) - 16, &mut out), "the newest frames are there");
}

#[test]
fn two_consumers_do_not_disturb_each_other() {
    // The render path and the exporter each hold their own cursor over the same memory. One
    // falling behind must not move the other.
    let (mut producer, mut first) = ring(1 << 12, 1, 48_000);

    let block = bits(&[0.5; 256]);
    for _ in 0..4 {
        producer.write(&[&block], block.len());
    }
    // Made after some audio exists, so it starts at the head rather than at zero.
    let mut second = producer.reader();

    assert_eq!(first.available(&producer), 1024, "the first reader started at zero");
    first.advance(1024);
    assert_eq!(first.available(&producer), 0);
    // The second was created after some audio existed, so it starts at the head and sees only
    // what arrived afterwards — independently of what the first has done.
    assert_eq!(second.available(&producer), 0, "a reader made at the head has no backlog");

    for _ in 0..2 {
        producer.write(&[&block], block.len());
    }
    assert_eq!(first.available(&producer), 512);
    assert_eq!(second.available(&producer), 512);
}

#[test]
fn a_ring_reports_its_shape() {
    let (p, r) = ring(64, 2, 44_100);
    assert_eq!((p.capacity(), p.channels(), p.sample_rate()), (64, 2, 44_100));
    assert_eq!((r.capacity(), r.channels(), r.sample_rate()), (64, 2, 44_100));
    assert_eq!((p.written(), r.position(), r.laps()), (0, 0, 0));
}

#[test]
fn a_channel_that_does_not_exist_reads_as_the_last_one() {
    let (mut p, r) = ring(16, 2, 48_000);
    p.write(&[&ramp(0, 4), &ramp(100, 4)], 4);
    let mut out = bits(&[0.0; 4]);
    assert!(r.read_into(&p, 9, 0, &mut out));
    assert_eq!(out, ramp(100, 4));
}

#[test]
fn a_block_may_be_as_long_as_the_ring() {
    let (mut p, r) = ring(8, 1, 48_000);
    p.write(&[&ramp(0, 3)], 3);
    p.write(&[&ramp(3, 8)], 8);
    p.write(&[&ramp(0, 8)], 0);
    assert_eq!(p.written(), 11);
    assert_eq!(r.oldest(&p), 3);
    let mut out = bits(&[0.0; 8]);
    assert!(r.read_into(&p, 0, 3, &mut out));
    assert_eq!(out, ramp(3, 8));
}

#[test]
fn what_is_held_is_exactly_the_newest_lap() {
    let (mut p, r) = ring(64, 1, 48_000);
    assert!(r.holds(&p, 0, 0));
    p.write(&[&ramp(0, 48)], 48);
    p.write(&[&ramp(48, 48)], 48);
    assert_eq!(r.oldest(&p), 32);
    assert!(r.holds(&p, 32, 96));
    assert!(!r.holds(&p, 31, 96));
    assert!(!r.holds(&p, 32, 97));
    assert!(!r.holds(&p, 50, 40), "an inverted range is never held");
}

#[test]
fn skipping_to_the_head_leaves_no_backlog() {
    let (mut p, mut r) = ring(64, 1, 48_000);
    p.write(&[&ramp(0, 40)], 40);
    r.skip_to_head(&p);
    assert_eq!(r.position(), 40);
    assert_eq!(r.available(&p), 0);
    p.write(&[&ramp(0, 10)], 10);
    assert_eq!(r.available_at(p.written()), 10);
}

#[test]
fn the_shape_answers_for_memory_it_does_not_own() {
    let shape = Shape { capacity: 8, channels: 2, sample_rate: 48_000 };
    assert_eq!(shape.slot(0, 11), 3);
    assert_eq!(shape.slot(1, 11), 8 + 3);
    assert_eq!(shape.contiguous(11, 20), 5);
    assert_eq!(shape.contiguous(11, 2), 2);
    assert_eq!(shape.clamped(7), 1);
    assert_eq!(shape.oldest(5), 0);
    assert_eq!(shape.oldest(20), 12);
    assert!(shape.holds(20, 12, 20) && !shape.holds(20, 11, 20));
}

#[test]
fn a_lap_is_counted_once_and_a_skip_leaves_nothing() {
    let (mut p, mut r) = ring(64, 1, 48_000);
    let block = ramp(0, 32);
    for _ in 0..5 {
        p.write(&[&block], 32);
    }
    let mut other = p.reader();
    assert_eq!(r.available(&p), 64);
    assert_eq!(r.available(&p), 64, "asking again gives the same answer");
    assert_eq!(r.laps(), 1, "and counts no further lap");
    for _ in 0..5 {
        p.write(&[&block], 32);
    }
    r.skip_to_head(&p);
    assert_eq!(r.position(), 320);
    assert_eq!(r.available(&p), 0);
    assert_eq!(r.laps(), 1, "what was skipped is not a lap");
    assert_eq!(other.position(), 160, "other readers do not move");
    assert_eq!(other.available(&p), 64);
}
