//! The MIDI lane.
use waveroll::midi::{Control, Event, MidiRing, Note};

fn ring() -> MidiRing {
    MidiRing::new(1024)
}

#[test]
fn a_note_on_and_off_pair_up() {
    let mut r = ring();
    r.push(100, 0x90, 60, 100);
    r.push(500, 0x80, 60, 64);
    let notes = r.notes_in(0, 1000, false);
    assert_eq!(notes.len(), 1);
    assert_eq!(notes[0].start, 100);
    assert_eq!(notes[0].end, Some(500));
    assert_eq!(notes[0].on_velocity, 100);
    assert_eq!(notes[0].off_velocity, 64);
}

#[test]
fn a_note_on_with_zero_velocity_is_a_note_off() {
    // What most keyboards actually send. Treating it as an onset gives notes that never stop.
    let mut r = ring();
    r.push(100, 0x90, 60, 100);
    r.push(400, 0x90, 60, 0);
    let notes = r.notes_in(0, 1000, false);
    assert_eq!(notes.len(), 1, "the zero-velocity message must not start a second note");
    assert_eq!(notes[0].end, Some(400));
}

#[test]
fn onset_decides_membership() {
    let mut r = ring();
    // In frame order, as the audio thread always produces them.
    r.push(100, 0x90, 40, 90);   // starts before, rings through
    r.push(300, 0x90, 60, 90);   // squarely inside
    r.push(400, 0x80, 60, 0);
    r.push(700, 0x90, 67, 90);   // starts after
    r.push(800, 0x80, 67, 0);
    r.push(900, 0x80, 40, 0);
    let notes = r.notes_in(200, 600, false);
    let keys: Vec<u8> = notes.iter().map(|n| n.key).collect();
    assert_eq!(keys, vec![60], "only the note that began inside is in it");
}

#[test]
fn a_note_still_sounding_at_the_edge_is_cut_there() {
    let mut r = ring();
    r.push(300, 0x90, 62, 90);
    r.push(900, 0x80, 62, 0);
    let cut = r.notes_in(200, 600, false);
    assert_eq!(cut[0].end, Some(600), "truncated at the boundary");
    let ringing = r.notes_in(200, 600, true);
    assert_eq!(ringing[0].end, Some(900), "let_ring keeps the tail");
}

#[test]
fn a_note_never_released_has_no_end() {
    let mut r = ring();
    r.push(300, 0x90, 64, 80);
    let notes = r.notes_in(200, 600, false);
    assert_eq!(notes.len(), 1);
    assert_eq!(notes[0].end, None, "still held is not the same as ending at the edge");
}

#[test]
fn re_striking_a_key_before_its_release_pairs_in_order() {
    // Two onsets of the same key, then two releases. Pairing on key alone closes the second
    // note with the first release and leaves the other open forever.
    let mut r = ring();
    r.push(100, 0x90, 60, 100);
    r.push(200, 0x90, 60, 110);
    r.push(300, 0x80, 60, 0);
    r.push(400, 0x80, 60, 0);
    let notes = r.notes_in(0, 1000, false);
    assert_eq!(notes.len(), 2);
    let ends: Vec<Option<u64>> = notes.iter().map(|n| n.end).collect();
    assert!(ends.contains(&Some(300)) && ends.contains(&Some(400)), "got {ends:?}");
    assert!(notes.iter().all(|n| n.end.is_some()), "neither should be left open");
}

#[test]
fn a_release_belonging_to_a_note_outside_the_selection_closes_nothing_inside() {
    let mut r = ring();
    r.push(100, 0x90, 60, 100);  // outside, opens
    r.push(300, 0x90, 60, 100);  // inside
    r.push(350, 0x80, 60, 0);    // closes the inside one, being the most recent
    r.push(900, 0x80, 60, 0);    // closes the outside one
    let notes = r.notes_in(200, 600, false);
    assert_eq!(notes.len(), 1);
    assert_eq!(notes[0].end, Some(350));
}

#[test]
fn separate_channels_do_not_close_each_other() {
    let mut r = ring();
    r.push(100, 0x90, 60, 100);       // channel 0
    r.push(150, 0x91, 60, 100);       // channel 1, same key
    r.push(200, 0x81, 60, 0);         // channel 1 off
    r.push(300, 0x80, 60, 0);         // channel 0 off
    let notes = r.notes_in(0, 1000, false);
    assert_eq!(notes.len(), 2);
    let ch0 = notes.iter().find(|n| n.channel == 0).expect("channel 0");
    let ch1 = notes.iter().find(|n| n.channel == 1).expect("channel 1");
    assert_eq!(ch0.end, Some(300));
    assert_eq!(ch1.end, Some(200));
}

#[test]
fn the_controller_snapshot_is_the_latest_value_of_each() {
    let mut r = ring();
    r.push(100, 0xB0, 74, 12);
    r.push(200, 0xB0, 64, 127);   // sustain down
    r.push(300, 0xB0, 74, 90);
    r.push(400, 0xB0, 74, 33);    // the one in force
    r.push(700, 0xB0, 74, 100);   // after the boundary, not in the snapshot
    let controls = r.controls_before(500);
    assert_eq!(controls.len(), 2, "one per controller, not one per event");
    let cutoff = controls.iter().find(|c| c.controller == 74).expect("cutoff");
    assert_eq!(cutoff.value, 33);
    let sustain = controls.iter().find(|c| c.controller == 64).expect("sustain");
    assert_eq!(sustain.value, 127, "the pedal was down and the clip must know");
}

#[test]
fn pitch_bend_is_fourteen_bits_and_per_channel() {
    let mut r = ring();
    r.push(100, 0xE0, 0x00, 0x40);   // centre on channel 0
    r.push(200, 0xE1, 0x7F, 0x7F);   // full up on channel 1
    r.push(300, 0xE0, 0x10, 0x4E);
    let bends = r.bends_before(500);
    assert_eq!(bends.len(), 2);
    assert_eq!(bends.iter().find(|(c, _)| *c == 0).expect("ch0").1, 0x10 | (0x4E << 7));
    assert_eq!(bends.iter().find(|(c, _)| *c == 1).expect("ch1").1, 16_383);
}

#[test]
fn the_ring_overwrites_and_keeps_the_newest() {
    let mut r = MidiRing::new(16);
    for i in 0..100u64 {
        r.push(i * 10, 0x90, 60, 100);
    }
    let held: Vec<Event> = r.iter();
    assert_eq!(held.len(), 16, "a full ring holds exactly its capacity");
    assert_eq!(held[0].frame, 84 * 10, "and it is the newest sixteen");
    assert_eq!(held[15].frame, 99 * 10);
}

#[test]
fn system_messages_are_not_captured() {
    let mut r = ring();
    r.push(100, 0xF8, 0, 0);   // clock
    r.push(100, 0xFA, 0, 0);   // start
    r.push(100, 0x90, 60, 100);
    assert_eq!(r.iter().len(), 1, "transport arrives through the clock, not the lane");
}

#[test]
fn events_classify_themselves() {
    let on = Event { frame: 7, status: 0x93, data1: 60, data2: 1 };
    assert_eq!(on.kind(), 0x90);
    assert_eq!(on.channel(), 3);
    assert!(on.is_note_on() && !on.is_note_off());
    let quiet = Event { data2: 0, ..on };
    assert!(quiet.is_note_off() && !quiet.is_note_on());
    let off = Event { status: 0x8F, ..on };
    assert!(off.is_note_off() && off.channel() == 15);
    let bend = Event { status: 0xE2, ..on };
    assert!(!bend.is_note_on() && !bend.is_note_off());
}

#[test]
fn a_ring_counts_what_it_stored_and_ignores_the_rest() {
    let mut r = MidiRing::new(4);
    assert_eq!(r.capacity(), 4);
    assert_eq!(r.written(), 0);
    r.push(0, 0x7F, 1, 1);
    r.push(0, 0xF0, 1, 1);
    r.push(1, 0x80, 60, 0);
    r.push(1, 0xEF, 0, 64);
    assert_eq!(r.written(), 2);
    assert_eq!(
        r.iter(),
        vec![
            Event { frame: 1, status: 0x80, data1: 60, data2: 0 },
            Event { frame: 1, status: 0xEF, data1: 0, data2: 64 },
        ]
    );
}

#[test]
fn a_release_takes_the_most_recent_strike_of_its_voice() {
    let mut r = MidiRing::new(16);
    r.push(10, 0x90, 60, 100);
    r.push(20, 0x90, 60, 110);
    r.push(30, 0x80, 60, 5);
    r.push(40, 0x80, 60, 6);
    r.push(50, 0x80, 60, 7);
    let notes = r.notes_in(0, 100, false);
    let note = |start, end, on_velocity, off_velocity| Note {
        start,
        end: Some(end),
        channel: 0,
        key: 60,
        on_velocity,
        off_velocity,
    };
    assert_eq!(notes, vec![note(10, 40, 100, 6), note(20, 30, 110, 5)]);
}

#[test]
fn the_selection_is_half_open_and_the_cut_is_not_a_release() {
    let mut r = MidiRing::new(16);
    r.push(200, 0x90, 60, 1);
    r.push(600, 0x90, 61, 1);
    r.push(600, 0x80, 60, 0);
    let notes = r.notes_in(200, 600, false);
    assert_eq!(notes.len(), 1, "the strike at the end is not inside");
    assert_eq!(notes[0].end, Some(600));
    assert_eq!(r.notes_in(201, 600, true).len(), 0);
}

#[test]
fn snapshots_list_parameters_in_the_order_they_first_showed_up() {
    let mut r = MidiRing::new(16);
    r.push(1, 0xB1, 7, 10);
    r.push(2, 0xB0, 1, 20);
    r.push(3, 0xB1, 7, 30);
    r.push(4, 0xE5, 1, 2);
    r.push(4, 0xE4, 3, 4);
    r.push(4, 0xE5, 0, 64);
    r.push(9, 0xB0, 1, 99);
    let control = |channel, controller, value| Control { channel, controller, value };
    assert_eq!(r.controls_before(9), vec![control(1, 7, 30), control(0, 1, 20)]);
    assert_eq!(r.controls_before(10), vec![control(1, 7, 30), control(0, 1, 99)]);
    assert_eq!(r.controls_before(1), vec![]);
    assert_eq!(r.bends_before(5), vec![(5, 64 << 7), (4, 3 | (4 << 7))]);
}

#[test]
fn only_the_oldest_event_is_given_up() {
    let mut r = MidiRing::new(4);
    for frame in 0..4 {
        r.push(frame, 0x90, 60, 1);
        assert_eq!(r.iter().len() as u64, r.written(), "nothing is given up before the ring is full");
    }
    let before = r.iter();
    r.push(9, 0xF8, 0, 0);
    r.push(9, 0x40, 0, 0);
    assert_eq!(r.iter(), before, "a message that is not captured costs nothing");
    assert_eq!(r.written(), 4);
    r.push(9, 0x80, 60, 0);
    assert_eq!(r.written(), 5);
    let after = r.iter();
    assert_eq!(after.len(), r.capacity());
    assert_eq!(after[..3], before[1..]);
    assert_eq!(after[3], Event { frame: 9, status: 0x80, data1: 60, data2: 0 });
}
