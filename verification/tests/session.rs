//! What the user picked, and what the clock and the exporter make of edge cases.
use waveroll::clock::{CaptureClock, ClockMessage, ClockPll, Readings, Transport};
use waveroll::grid::{closest_rung, cycle_unit, rulings, with_cells, Line, Rule, Selection, MAX_RULINGS};
use waveroll::midi::MidiRing;
use waveroll::quantise::quantise;
use waveroll::ring::ring;
use waveroll::session::{copied_length, deinterleave, playing_after, Session, Settings};
use waveroll::smf::{stage, Clip, ControlChange, Note, PitchBend, SmfOptions};
use waveroll::tempo::{Meter, Segment, TempoMap};
use waveroll::view::{Place, Viewport};
use waveroll::wav::{Depth, WavMeta, WavSpec};

#[test]
fn settings_are_clamped() {
    let s = Settings::new(44_100, 2, 20, 512);
    assert_eq!((s.sample_rate, s.channels, s.capacity, s.max_block), (44_100, 2, 1 << 20, 512));
    let s = Settings::new(1, 0, 0, 0);
    assert_eq!((s.sample_rate, s.channels, s.capacity, s.max_block), (8_000, 1, 1 << 16, 64));
    let s = Settings::new(u32::MAX, 99, 99, u32::MAX);
    assert_eq!((s.sample_rate, s.channels, s.capacity, s.max_block), (768_000, 2, 1 << 26, 65_536));
}

#[test]
fn erosion_gives_up_the_oldest_and_then_the_rest() {
    let mut session = Session::new();
    session.select(Some(Selection { start: 100, end: 200 }));
    session.erode(50);
    assert_eq!(session.selection(), Some(Selection { start: 100, end: 200 }));
    session.erode(150);
    session.erode(150);
    assert_eq!(session.selection(), Some(Selection { start: 150, end: 200 }));
    session.erode(200);
    assert_eq!(session.selection(), None);
}

#[test]
fn markers_from_before_the_ring_are_dropped() {
    let mut session = Session::new();
    session.mark(10, 0);
    session.mark(50, 20);
    assert_eq!(session.markers(), &vec![50]);
    session.mark(90, 20);
    assert_eq!(session.marker_before(90), Some(50));
    assert_eq!(session.marker_before(91), Some(90));
    assert_eq!(session.marker_before(50), None);
}

#[test]
fn events_are_stamped_inside_their_block() {
    let mut session = Session::new();
    session.begin_block(1000);
    assert_eq!(session.stamp(1512, 0), Some(1000));
    assert_eq!(session.stamp(1512, 511), Some(1511));
    assert_eq!(session.stamp(1512, 99_999), Some(1511));
    assert_eq!(session.stamp(1000, 5), None, "a refused block takes no events");
}

#[test]
fn the_held_head_is_where_hold_was_pressed() {
    let mut session = Session::new();
    assert_eq!(session.head(7), 7);
    session.hold(true, 7);
    assert_eq!(session.head(9), 7);
    session.hold(true, 9);
    assert_eq!(session.head(11), 9);
    session.hold(false, 11);
    assert_eq!(session.head(11), 11);
}

#[test]
fn text_copies_leave_room_for_the_terminator() {
    assert_eq!(copied_length(5, 10), 5);
    assert_eq!(copied_length(10, 10), 9);
    assert_eq!(copied_length(3, 0), 0);
}

#[test]
fn interleaved_blocks_come_apart() {
    assert_eq!(deinterleave(&[1, 2, 3, 4, 5, 6], 2, 3), vec![vec![1, 3, 5], vec![2, 4, 6]]);
    assert_eq!(deinterleave(&[1, 2, 3], 1, 2), vec![vec![1, 2]]);
}

#[test]
fn only_transport_messages_move_the_transport() {
    assert!(playing_after(ClockMessage::Start, false));
    assert!(playing_after(ClockMessage::Continue, false));
    assert!(!playing_after(ClockMessage::Stop, true));
    assert!(playing_after(ClockMessage::Tick, true));
    assert!(!playing_after(ClockMessage::SongPosition(3), false));
}

fn readings(shift: u64, jumped: bool) -> Readings<u32> {
    Readings {
        same_bpm: true,
        quarters: 1,
        bars: 2,
        jumped,
        bar_phase: 77,
        shift,
        nearly_there: false,
        just_past: false,
        onward: Some(5),
    }
}

#[test]
fn a_splice_is_the_only_thing_that_spends_ring() {
    let four = Meter::four_four();
    let rolling = Transport::at(120u32, four, 3);
    let mut clock = CaptureClock::new(48_000, 120u32, four, 0);
    let first = clock.advance(&rolling, 100, &readings(9, false));
    assert_eq!((first.seam, first.frames), (0, 100), "the first press moves the grid");
    assert_eq!(clock.map().bar_phase(), 77);
    let second = clock.advance(&rolling, 100, &readings(9, false));
    assert_eq!((second.seam, second.frames), (0, 100), "rolling on");
    let third = clock.advance(&rolling, 100, &readings(9, true));
    assert_eq!((third.seam, third.frames), (9, 100), "a locate");
    clock.advance(&Transport::stopped(120u32, four), 100, &readings(9, false));
    assert!(!clock.is_capturing());
    let fourth = clock.advance(&rolling, 100, &readings(7, false));
    assert_eq!((fourth.seam, fourth.frames), (7, 100), "a restart");
    assert_eq!(clock.captured(), 416);
    assert_eq!(clock.seam_frames(), 16);
    assert_eq!(clock.expected(), Some(5));
    let early = Readings { nearly_there: true, ..readings(8, true) };
    let late = Readings { just_past: true, ..readings(8, true) };
    assert_eq!(clock.advance(&rolling, 10, &early).seam, 0, "within a block of its place");
    assert_eq!(clock.advance(&rolling, 10, &late).seam, 0, "a hair late");
    let silent = Transport::rolling(120u32, four);
    assert_eq!(clock.advance(&silent, 10, &readings(8, true)).seam, 0, "no position, no jump");
}

#[test]
fn a_window_of_ticks_never_repeats_an_index() {
    let mut pll = ClockPll::new(48_000, 120u32);
    for i in 0..60u64 {
        // Every fifth tick is missing.
        if i % 5 != 4 {
            pll.feed(ClockMessage::Tick, i * 1000, if i % 5 == 0 { 2 } else { 1 }, true);
        }
    }
    assert_eq!(pll.window().len(), 24);
    assert!(pll.window().windows(2).all(|p| p[0].0 < p[1].0));
    assert_eq!(pll.rejected(), 0);
    let last = pll.window().last().unwrap().0;
    // A gap starts a fresh window.
    pll.feed(ClockMessage::Tick, 10_000_000, 1, true);
    assert_eq!(pll.window(), &vec![(1, 10_000_000)]);
    assert_eq!(pll.rejected(), 1);
    assert!(last > 1);
}

#[test]
fn the_plausible_intervals_are_those_of_20_to_999_bpm() {
    for (interval, rejected) in [(120, 1), (121, 0), (6000, 0), (6001, 1)] {
        let mut pll = ClockPll::new(48_000, 120u32);
        pll.feed(ClockMessage::Tick, 1000, 1, true);
        pll.feed(ClockMessage::Tick, 1000 + interval, 1, true);
        assert_eq!(pll.rejected(), rejected, "{interval}");
    }
}

#[test]
fn unbelieved_ratios_count_as_one_tick() {
    let mut pll = ClockPll::new(48_000, 120u32);
    for i in 0..3u64 {
        pll.feed(ClockMessage::Tick, i * 1000, 5, true);
    }
    assert_eq!(pll.window().last(), Some(&(3, 2000)), "not before the window has settled");
    pll.feed(ClockMessage::Tick, 4500, 3, false);
    assert_eq!(pll.window().last(), Some(&(4, 4500)), "not where the ratio is not close");
    pll.feed(ClockMessage::Tick, 6500, 2, true);
    assert_eq!(pll.window().last(), Some(&(6, 6500)));
}

#[test]
fn of_two_changes_at_one_instant_the_later_wins() {
    let four = Meter::four_four();
    let mut map = TempoMap::new(48_000, 120u32, four, 0);
    let at = |frame, bpm| Segment { frame, bpm, meter: four, quarters: 3, bars: 4 };
    map.push(at(100, 130), false);
    map.push(at(100, 140), false);
    map.push(at(200, 140), true);
    assert_eq!(map.len(), 2);
    assert_eq!((map.bpm_at(99), map.bpm_at(100), map.bpm_at(u64::MAX)), (120, 140, 140));
    assert_eq!(map.changes_in(0, 101), vec![(100, 140, four)]);
    assert_eq!(map.changes_in(100, 200), vec![], "strictly inside");
    assert!(!map.is_empty());
    assert_eq!(map.segment_at_bar(|bars| bars <= 3).frame, 0);
    assert_eq!(map.segment_at_bar(|bars| bars <= 4).frame, 100);
}

#[test]
fn the_ladder_clamps_long_walks() {
    assert_eq!(cycle_unit(None, i32::MIN), None);
    assert_eq!(cycle_unit(None, i32::MAX), Some(7));
    assert_eq!(cycle_unit(Some(3), -4), None);
    assert_eq!(cycle_unit(Some(3), -3), Some(0));
    assert_eq!(cycle_unit(Some(7), 1), Some(7));
}

#[test]
fn lines_off_the_canvas_are_not_ruled() {
    let line = |fraction, visible, on_lap, on_bar| Line { fraction, visible, on_lap, on_bar };
    let out = rulings(&vec![
        line(-1, false, true, true),
        line(0, true, true, true),
        line(1, true, false, true),
        line(2, true, false, false),
    ]);
    let ruled: Vec<(i32, Rule)> = out.iter().map(|r| (r.fraction, r.rule)).collect();
    assert_eq!(ruled, vec![(0, Rule::Lap), (1, Rule::Bar), (2, Rule::Cell)]);
    assert!(with_cells(true, MAX_RULINGS));
    assert!(!with_cells(true, MAX_RULINGS + 1));
    assert!(!with_cells(false, 1));
}

#[test]
fn snapping_sorts_its_ends_and_takes_at_least_a_cell() {
    let below = |f: u64| (f / 10) as i64;
    let above = |f: u64| f.div_ceil(10) as i64;
    let edge = |c: i64| (c * 10) as u64;
    let sel = |start, end| Selection { start, end };
    assert_eq!(waveroll::grid::cell_at(below, edge, 25), sel(20, 30));
    assert_eq!(waveroll::grid::snap_range(below, above, edge, 41, 25), sel(20, 50));
    assert_eq!(waveroll::grid::snap_range(below, above, edge, 20, 20), sel(20, 30));
    assert_eq!(waveroll::grid::snap_range_upto(below, edge, 41, 25, 39), Some(sel(20, 30)));
    assert_eq!(waveroll::grid::snap_range_upto(below, edge, 41, 25, 29), None);
    let tenths = |t: u32| i64::from(t);
    let row = waveroll::grid::percent_from_head::<_, _>;
    assert_eq!(row(tenths, edge, 20, 10, 3), Some(sel(170, 200)));
    assert_eq!(row(tenths, edge, 12, 10, 3), Some(sel(100, 120)), "none from before the window");
    assert_eq!(row(tenths, edge, 10, 10, 3), None);
    assert_eq!(row(tenths, edge, 20, 0, 0), Some(sel(190, 200)), "keys are clamped");
    assert_eq!(row(tenths, edge, 20, 0, 77), Some(sel(100, 200)));
}

#[test]
fn a_place_ahead_of_the_head_shows_the_previous_lap() {
    let viewport = |lap| Viewport {
        lap_start_bars: 0,
        left_bars: 0,
        span_bars: 16,
        window_bars: 16,
        head_bars: 0,
        head_frame: 100,
        lap,
        columns: 4,
    };
    let place = |ahead, frame| Place { ahead, before_capture: false, frame, previous: frame / 2 };
    assert_eq!(viewport(0).frame_at(&place(false, 60)), Some(60));
    assert_eq!(viewport(0).frame_at(&place(true, 160)), None);
    assert_eq!(viewport(1).frame_at(&place(true, 160)), Some(80));
    let before = Place { before_capture: true, ..place(true, 160) };
    assert_eq!(viewport(1).frame_at(&before), None);
    assert_eq!(viewport(1).frame_span(&place(false, 90), &place(true, 110)), Some((90, 100)));
    assert_eq!(viewport(1).frame_span(&place(false, 100), &place(true, 110)), Some((50, 55)));
    assert_eq!(viewport(0).frame_span(&place(false, 100), &place(true, 110)), None);
}

#[test]
fn held_audio_survives_later_writes() {
    let (mut p, r) = ring(64, 1, 48_000);
    p.write(&[&(0..32).collect::<Vec<u32>>()], 32);
    p.write(&[&(32..64).collect::<Vec<u32>>()], 32);
    let mut before = vec![0; 16];
    assert!(r.read_into(&p, 0, 40, &mut before));
    p.write(&[&vec![7; 24]], 24);
    let mut after = vec![0; 16];
    assert!(r.read_into(&p, 0, 40, &mut after));
    assert_eq!(before, after);
    p.write(&[&vec![7; 24]], 24);
    assert!(!r.read_into(&p, 0, 40, &mut after), "overtaken for good");
}

fn export(clip: &Clip, within: Selection, options: &SmfOptions) -> Vec<u8> {
    let map = TempoMap::new(48_000, 120u32, Meter::four_four(), 0);
    waveroll::smf::write(
        within,
        &map,
        clip,
        options,
        |frame: u64| (frame.max(within.start) - within.start) as u32,
        |_bpm: u32| 500_000,
    )
}

#[test]
fn events_on_one_tick_keep_their_rank() {
    let note = |start, end, key| Note {
        start,
        end: Some(end),
        channel: 0,
        key,
        on_velocity: 64,
        off_velocity: 0,
    };
    let notes = [note(10, 20, 60), note(20, 30, 60)];
    let controls = [ControlChange { frame: 20, channel: 1, controller: 7, value: 9 }];
    let bends = [PitchBend { frame: 20, channel: 2, value: 99_99 }];
    let clip = Clip { notes: &notes, controls: &controls, bends: &bends };
    let options = SmfOptions { name: String::new(), ..SmfOptions::default() };
    let bytes = export(&clip, Selection { start: 0, end: 40 }, &options);
    assert_eq!(
        &bytes[22..],
        &[
            0, 0xFF, 0x51, 3, 0x07, 0xA1, 0x20, // tempo
            0, 0xFF, 0x58, 4, 4, 2, 24, 8, // meter
            10, 0x90, 60, 64, //
            10, 0xB1, 7, 9, //
            0, 0xE2, 0x0F, 0x4E, //
            0, 0x80, 60, 0, // released before it is struck again
            0, 0x90, 60, 64, //
            10, 0x80, 60, 0, //
            10, 0xFF, 0x2F, 0,
        ]
    );
}

#[test]
fn a_name_is_cut_to_127_bytes_and_ppq_is_at_least_one() {
    let options = SmfOptions { ppq: 0, let_ring: false, name: "x".repeat(200) };
    let bytes = export(&Clip::default(), Selection { start: 0, end: 1 }, &options);
    assert_eq!(&bytes[12..14], &[0, 1]);
    assert_eq!(&bytes[22..26], &[0, 0xFF, 3, 127]);
    assert!(bytes[26..153].iter().all(|b| *b == b'x'));
    assert_eq!(bytes[153], 0, "the next event");
}

#[test]
fn staging_takes_the_lane_up_to_the_end_of_the_selection() {
    let mut lane = MidiRing::new(16);
    lane.push(5, 0xB0, 7, 100);
    lane.push(6, 0xE0, 1, 2);
    lane.push(12, 0x90, 60, 80);
    lane.push(14, 0x80, 60, 0);
    lane.push(25, 0xB0, 7, 1);
    let staged = stage(&lane, Selection { start: 10, end: 20 }, false);
    assert!(!staged.is_empty());
    assert_eq!((staged.notes.len(), staged.controls.len(), staged.bends.len()), (1, 1, 1));
    assert_eq!((staged.notes[0].start, staged.notes[0].end), (12, Some(14)));
    assert_eq!(staged.bends[0].value, 1 | (2 << 7));
    assert_eq!(staged.clip().controls[0].value, 100);
    let empty = MidiRing::new(4);
    assert!(stage(&empty, Selection { start: 0, end: 9 }, true).is_empty());
}

#[test]
fn columns_meet_on_each_side_of_the_head() {
    let viewport = Viewport {
        lap_start_bars: 0,
        left_bars: 0,
        span_bars: 16,
        window_bars: 16,
        head_bars: 8,
        head_frame: 55,
        lap: 1,
        columns: 10,
    };
    let columns = viewport.columns(|c: u32| Place {
        ahead: c > 5,
        before_capture: false,
        frame: 10 * u64::from(c),
        previous: 10 * u64::from(c) - if c > 5 { 50 } else { 0 },
    });
    let jumps = columns
        .windows(2)
        .filter(|pair| pair[0].start + u64::from(pair[0].count) != pair[1].start)
        .count();
    assert_eq!(columns.len(), 10);
    assert_eq!(jumps, 1, "only at the head");
    assert_eq!((columns[5].start, columns[5].count), (50, 5), "which the column there stops at");
}

#[test]
fn integer_files_hold_what_was_quantised() {
    let samples: Vec<u32> = [0.5f32, -0.5, 0.1, -1.0].iter().map(|v| v.to_bits()).collect();
    let other: Vec<u32> = [0.25f32, 1.0, -0.3, 0.0].iter().map(|v| v.to_bits()).collect();
    for (depth, width, bytes) in [(Depth::I16, 15, 2), (Depth::I24, 23, 3)] {
        let spec = WavSpec { dither: false, ..WavSpec::new(48_000, depth) };
        let wav = waveroll::wav::write(&[&samples, &other], &spec, &WavMeta::none());
        let data = &wav[wav.len() - 8 * bytes..];
        for frame in 0..4 {
            for (channel, plane) in [&samples, &other].iter().enumerate() {
                let at = bytes * (frame * 2 + channel);
                let mut word = [0u8; 4];
                word[4 - bytes..].copy_from_slice(&data[at..at + bytes]);
                let value = i32::from_le_bytes(word) >> (32 - 8 * bytes);
                assert_eq!(value, quantise(plane[frame], width, None));
            }
        }
    }
}

#[test]
fn the_closest_rung_is_the_finest_of_the_closest() {
    let less = |pair: (u32, u32)| pair.0 < pair.1;
    assert_eq!(closest_rung(&vec![5, 3, 9, 3], 100, less), 1);
    assert_eq!(closest_rung(&vec![5, 3, 2], 100, less), 2);
    assert_eq!(closest_rung(&vec![100, 101], 100, less), 0, "none is near: the finest");
}
