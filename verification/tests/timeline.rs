//! Musical time end to end: the library driven with double-precision numbers.
use waveroll::clock::{
    decode_clock, Advance, CaptureClock, ClockMessage, ClockPll, Readings, Transport,
};
use waveroll::grid::{rung32, Line, Rule, Ruling, Selection, RUNGS};
use waveroll::midi::MidiRing;
use waveroll::ring::{ring, Producer, Reader as RingReader, Shape};
use waveroll::session::{Session, SelectionState, Settings};
use waveroll::smf::{
    meter_meta, stage, tempo_meta, write_varint, Clip, ControlChange, Note, PitchBend, SmfOptions,
};
use waveroll::take::{capture, capture_event, selected_planes};
use waveroll::tempo::{Meter, Segment, TempoMap};
use waveroll::view::{Column, Place, Viewport};
use waveroll::wav::{capture_bext, Acid, Depth, WavMeta, WavSpec};

const SR: u32 = 48_000;

/// The ladder of grid units, in bars.
const LADDER: [f64; 8] =
    [1.0 / 32.0, 1.0 / 16.0, 1.0 / 8.0, 1.0 / 4.0, 1.0 / 2.0, 1.0, 2.0, 4.0];

// --------------------------------------------------------------------------------
// Arithmetic
// --------------------------------------------------------------------------------

/// How many quarter notes long one bar is. 4/4 is four; 6/8 is three; 7/8 is three and a half.
fn quarters_per_bar(meter: Meter) -> f64 {
    f64::from(meter.num) * 4.0 / f64::from(meter.den)
}

/// A map that begins at frame zero.
fn tempo_map(sample_rate: u32, bpm: f64, meter: Meter) -> TempoMap<f64> {
    assert!(sample_rate > 0, "sample rate must be positive");
    assert!(bpm.is_finite() && bpm > 0.0, "bpm must be finite and positive, got {bpm}");
    TempoMap::new(sample_rate, bpm, meter, 0.0)
}

/// Two tempi that are the same for the purposes of the map.
fn same_bpm(a: f64, b: f64) -> bool {
    (a - b).abs() < 1e-9
}

/// Quarter notes between the start of a segment and a frame that it is in force at.
fn quarters_between(map: &TempoMap<f64>, from: &Segment<f64>, frame: u64) -> f64 {
    (frame - from.frame) as f64 * from.bpm / (60.0 * f64::from(map.sample_rate()))
}

/// Bars elapsed at `frame` since the capture began, wherever bar one was put.
fn elapsed_bars(map: &TempoMap<f64>, frame: u64) -> f64 {
    let e = map.segment_at_frame(frame);
    e.bars + quarters_between(map, &e, frame) / quarters_per_bar(e.meter)
}

/// The bar phase that makes `frame` a downbeat.
fn downbeat_phase(map: &TempoMap<f64>, frame: u64) -> f64 {
    elapsed_bars(map, frame).rem_euclid(1.0)
}

trait MusicalTime {
    /// Records a tempo or meter change observed at `frame`.
    fn observe(&mut self, frame: u64, bpm: f64, meter: Meter);
    /// Quarter notes elapsed at `frame`.
    fn quarters_at(&self, frame: u64) -> f64;
    /// Bars elapsed at `frame`. Fractional: 6.25 is a quarter of the way into bar seven.
    fn bars_at(&self, frame: u64) -> f64;
    /// The inverse of `bars_at`, rounded to the nearest frame.
    fn frame_at_bars(&self, bars: f64) -> u64;
    /// How many frames one bar lasts, at the tempo in force at `frame`.
    fn frames_per_bar_at(&self, frame: u64) -> f64;
    /// Re-phases the bar lines so that `frame` is a downbeat.
    fn set_downbeat(&mut self, frame: u64);
}

impl MusicalTime for TempoMap<f64> {
    fn observe(&mut self, frame: u64, bpm: f64, meter: Meter) {
        assert!(bpm.is_finite() && bpm > 0.0, "bpm must be finite and positive, got {bpm}");
        let last = self.last();
        assert!(frame >= last.frame, "tempo changes must be appended in order");
        let quarters = last.quarters + quarters_between(self, &last, frame);
        let bars = elapsed_bars(self, frame);
        let unchanged = same_bpm(bpm, last.bpm);
        self.push(Segment { frame, bpm, meter, quarters, bars }, unchanged);
    }

    fn quarters_at(&self, frame: u64) -> f64 {
        let e = self.segment_at_frame(frame);
        e.quarters + quarters_between(self, &e, frame)
    }

    fn bars_at(&self, frame: u64) -> f64 {
        elapsed_bars(self, frame) - self.bar_phase()
    }

    fn frame_at_bars(&self, bars: f64) -> u64 {
        let bars = (bars + self.bar_phase()).max(0.0);
        let e = self.segment_at_bar(|begins: f64| begins <= bars);
        let quarters = (bars - e.bars) * quarters_per_bar(e.meter);
        let frames = quarters * 60.0 * f64::from(self.sample_rate()) / e.bpm;
        e.frame + frames.round().max(0.0) as u64
    }

    fn frames_per_bar_at(&self, frame: u64) -> f64 {
        let e = self.segment_at_frame(frame);
        quarters_per_bar(e.meter) * 60.0 * f64::from(self.sample_rate()) / e.bpm
    }

    fn set_downbeat(&mut self, frame: u64) {
        let phase = downbeat_phase(self, frame);
        self.set_bar_phase(phase);
    }
}

/// How far in the view can be zoomed: a guard against a runaway wheel event.
const MAX_ZOOM: f64 = 65_536.0;

/// The persistent part of the view: what the user has done to it.
#[derive(Clone, Copy, Debug, PartialEq)]
struct View {
    /// Length of one lap, in bars.
    window_bars: f64,
    /// 1.0 shows the whole window. Larger shows less of it.
    zoom: f64,
    /// Left edge, in bars from the start of the lap.
    scroll_bars: f64,
}

impl View {
    fn new(window_bars: f64) -> View {
        View { window_bars: window_bars.max(0.25), zoom: 1.0, scroll_bars: 0.0 }
    }

    /// Fit to width, which is home.
    fn home(&mut self) {
        self.zoom = 1.0;
        self.scroll_bars = 0.0;
    }

    fn is_home(&self) -> bool {
        self.zoom <= 1.0 && self.scroll_bars == 0.0
    }

    /// Visible span, in bars.
    fn span_bars(&self) -> f64 {
        self.window_bars / self.zoom.clamp(1.0, MAX_ZOOM)
    }

    /// Zooms by `factor` about a fixed point given as a fraction of the canvas width.
    fn zoom_about(&mut self, factor: f64, anchor: f64) {
        if !(factor.is_finite() && factor > 0.0) {
            return;
        }
        let anchor = anchor.clamp(0.0, 1.0);
        let at = self.scroll_bars + anchor * self.span_bars();
        self.zoom = (self.zoom * factor).clamp(1.0, MAX_ZOOM);
        self.scroll_bars = at - anchor * self.span_bars();
        self.clamp();
    }

    /// Scrolls by a fraction of the visible span.
    fn scroll_by(&mut self, fraction: f64) {
        self.scroll_bars += fraction * self.span_bars();
        self.clamp();
    }

    /// Keeps the visible span inside the window.
    fn clamp(&mut self) {
        self.zoom = self.zoom.clamp(1.0, MAX_ZOOM);
        let slack = (self.window_bars - self.span_bars()).max(0.0);
        self.scroll_bars = self.scroll_bars.clamp(0.0, slack);
    }
}

/// Resolves a view against the clock, once per painted frame.
fn resolve(view: &View, map: &TempoMap<f64>, captured: u64, columns: u32) -> Viewport<f64> {
    let mut view = *view;
    view.clamp();
    let head_bars = map.bars_at(captured).max(0.0);
    let lap = (head_bars / view.window_bars).floor().max(0.0);
    let lap_start_bars = lap * view.window_bars;
    Viewport {
        lap_start_bars,
        left_bars: lap_start_bars + view.scroll_bars,
        span_bars: view.span_bars(),
        window_bars: view.window_bars,
        head_bars,
        head_frame: captured,
        lap: lap as u64,
        columns: columns.max(1),
    }
}

trait Canvas {
    /// Bar position shown at canvas fraction `u`, before the wrap is resolved.
    fn bars_shown(&self, u: f64) -> f64;
    /// Canvas fraction showing `bars`. Outside `0..1` when off screen.
    fn fraction_at(&self, bars: f64) -> f64;
    /// Where the write head sits, as a canvas fraction.
    fn head_fraction(&self) -> f64;
    /// What lies at canvas fraction `u`, in this lap and in the one before.
    fn place_at(&self, map: &TempoMap<f64>, u: f64) -> Place;
    /// The frame shown at canvas fraction `u`, or `None` where nothing has been captured yet.
    fn frame_shown(&self, map: &TempoMap<f64>, u: f64) -> Option<u64>;
    /// One entry per column: the ring range that each pixel reduces.
    fn source_columns(&self, map: &TempoMap<f64>) -> Vec<Column>;
    /// Samples reduced into one pixel column.
    fn frames_per_column(&self, map: &TempoMap<f64>) -> f64;
}

impl Canvas for Viewport<f64> {
    fn bars_shown(&self, u: f64) -> f64 {
        self.left_bars + u * self.span_bars
    }

    fn fraction_at(&self, bars: f64) -> f64 {
        (bars - self.left_bars) / self.span_bars
    }

    fn head_fraction(&self) -> f64 {
        self.fraction_at(self.head_bars)
    }

    fn place_at(&self, map: &TempoMap<f64>, u: f64) -> Place {
        let bars = self.bars_shown(u);
        let previous = bars - self.window_bars;
        Place {
            ahead: !(bars <= self.head_bars),
            before_capture: previous < 0.0,
            frame: map.frame_at_bars(bars),
            previous: map.frame_at_bars(previous),
        }
    }

    fn frame_shown(&self, map: &TempoMap<f64>, u: f64) -> Option<u64> {
        self.frame_at(&self.place_at(map, u))
    }

    fn source_columns(&self, map: &TempoMap<f64>) -> Vec<Column> {
        let width = f64::from(self.columns);
        self.columns(|c: u32| self.place_at(map, f64::from(c) / width))
    }

    fn frames_per_column(&self, map: &TempoMap<f64>) -> f64 {
        let left = map.frame_at_bars(self.left_bars) as f64;
        let right = map.frame_at_bars(self.left_bars + self.span_bars) as f64;
        (right - left) / f64::from(self.columns)
    }
}

/// The on-screen cell width that `Unit::Auto` aims for, in CSS pixels.
const AUTO_TARGET_PX: f64 = 80.0;

/// A rung of the ladder, in bars.
fn rung_bars(rung: usize) -> f64 {
    f64::from(rung32(rung)) / 32.0
}

/// What the quantise control is set to.
#[derive(Clone, Copy, Debug, PartialEq)]
enum Unit {
    /// Derived from the current zoom, re-evaluated whenever the view changes.
    Auto,
    /// A rung of the ladder.
    Rung(usize),
}

impl Unit {
    /// Zero or less means auto; anything else snaps to the nearest rung.
    fn of_bars(bars: f64) -> Unit {
        if bars <= 0.0 {
            Unit::Auto
        } else {
            Unit::Rung(nearest_rung(bars))
        }
    }

    /// Resolves to a concrete number of bars.
    fn bars(self, bars_visible: f64, width_px: f64) -> f64 {
        match self {
            Unit::Auto => auto_unit(bars_visible, width_px, AUTO_TARGET_PX),
            Unit::Rung(rung) => rung_bars(rung),
        }
    }

    /// Walks the ladder and returns the new setting in bars, with auto as zero.
    fn cycle(&mut self, step: i32) -> f64 {
        let rung = match *self {
            Unit::Auto => None,
            Unit::Rung(rung) => Some(rung),
        };
        match waveroll::grid::cycle_unit(rung, step) {
            None => {
                *self = Unit::Auto;
                0.0
            }
            Some(rung) => {
                *self = Unit::Rung(rung);
                rung_bars(rung)
            }
        }
    }
}

/// The rung closest to what is wanted, measured in `log2` so that "twice too wide" and "half too
/// wide" are the same distance from ideal.
fn closest_rung(relative: impl Fn(f64) -> f64) -> usize {
    let errors: Vec<f64> =
        (0..RUNGS).map(|rung| relative(rung_bars(rung)).log2().abs()).collect();
    waveroll::grid::closest_rung(&errors, f64::INFINITY, |pair: (f64, f64)| pair.0 < pair.1)
}

/// The rung whose on-screen cell width is closest to `target_px`, in bars.
fn auto_unit(bars_visible: f64, width_px: f64, target_px: f64) -> f64 {
    let sane = |v: f64| v.is_finite() && v > 0.0;
    if !(sane(bars_visible) && sane(width_px) && sane(target_px)) {
        return 1.0;
    }
    let px_per_bar = width_px / bars_visible;
    rung_bars(closest_rung(|rung| (rung * px_per_bar) / target_px))
}

/// The rung nearest to an arbitrary bar figure.
fn nearest_rung(bars: f64) -> usize {
    let bars = guard_unit(bars);
    closest_rung(|rung| rung / bars)
}

fn guard_unit(unit_bars: f64) -> f64 {
    if unit_bars.is_finite() && unit_bars > 0.0 { unit_bars } else { 1.0 }
}

/// The cell that a number of bars lies in. Kept off the last integer, so that there is a next one.
fn cell(bars: f64, unit: f64) -> i64 {
    ((bars / unit).floor() as i64).min(i64::MAX - 1)
}

fn edge(map: &TempoMap<f64>, unit: f64, cell: i64) -> u64 {
    map.frame_at_bars(cell as f64 * unit)
}

/// A click with no drag: the one cell containing `frame`.
fn cell_at(map: &TempoMap<f64>, unit_bars: f64, frame: u64) -> Selection {
    let unit = guard_unit(unit_bars);
    waveroll::grid::cell_at(
        |f: u64| cell(map.bars_at(f), unit),
        |c: i64| edge(map, unit, c),
        frame,
    )
}

/// A drag: start snaps down, end snaps up, minimum one cell.
fn snap_range(map: &TempoMap<f64>, unit_bars: f64, a: u64, b: u64) -> Selection {
    let unit = guard_unit(unit_bars);
    waveroll::grid::snap_range(
        |f: u64| cell(map.bars_at(f), unit),
        |f: u64| (map.bars_at(f) / unit).ceil() as i64,
        |c: i64| edge(map, unit, c),
        a,
        b,
    )
}

/// Like [`snap_range`], but never reaching past `limit`.
fn snap_range_upto(
    map: &TempoMap<f64>,
    unit_bars: f64,
    a: u64,
    b: u64,
    limit: u64,
) -> Option<Selection> {
    let unit = guard_unit(unit_bars);
    waveroll::grid::snap_range_upto(
        |f: u64| cell(map.bars_at(f), unit),
        |c: i64| edge(map, unit, c),
        a,
        b,
        limit,
    )
}

/// The first cell that lies wholly inside the window ending at `head`.
fn oldest_cell(map: &TempoMap<f64>, unit: f64, head: u64, window_bars: f64) -> i64 {
    let window_start = (map.bars_at(head) - window_bars).max(0.0);
    ((window_start / unit).ceil() as i64).max(0)
}

/// The number row: the most recent tenths of the window, as a whole number of cells.
fn percent_from_head(
    map: &TempoMap<f64>,
    unit_bars: f64,
    head: u64,
    window_bars: f64,
    tenths: u32,
) -> Option<Selection> {
    let unit = guard_unit(unit_bars);
    waveroll::grid::percent_from_head(
        |tenths: u32| (window_bars * f64::from(tenths) / 10.0 / unit).round() as i64,
        |c: i64| edge(map, unit, c),
        cell(map.bars_at(head), unit),
        oldest_cell(map, unit, head, window_bars),
        tenths,
    )
}

/// Where the first whole cell of the window begins: what lies before it is given up.
fn window_edge(map: &TempoMap<f64>, unit_bars: f64, head: u64, window_bars: f64) -> u64 {
    let unit = guard_unit(unit_bars);
    edge(map, unit, oldest_cell(map, unit, head, window_bars))
}

/// Every grid line visible in `viewport`, left to right.
fn rulings(viewport: &Viewport<f64>, unit_bars: f64) -> Vec<Ruling<f64>> {
    let unit = guard_unit(unit_bars);
    let left = viewport.left_bars;
    let right = left + viewport.span_bars;
    let cells = ((viewport.span_bars / unit).ceil() as usize).saturating_add(2);
    let step = if waveroll::grid::with_cells(unit < 1.0, cells) { unit } else { 1.0 };
    let first = (left / step).floor() * step;
    // Counted rather than compared, because accumulating `step` in floating point drifts.
    let count = ((right - first) / step).floor() as i64 + 1;
    let mut lines = Vec::new();
    let mut at = first;
    for _ in 0..count.max(0) {
        let fraction = viewport.fraction_at(at);
        let within = at % viewport.window_bars;
        lines.push(Line {
            fraction,
            visible: (-0.001..=1.001).contains(&fraction),
            on_lap: within.abs() < 1e-6 || (within - viewport.window_bars).abs() < 1e-6,
            on_bar: (at - at.round()).abs() < 1e-6,
        });
        at += step;
    }
    waveroll::grid::rulings(&lines)
}

/// Ticks per quarter note in a MIDI clock stream.
const CLOCK_PPQ: f64 = 24.0;

/// How far a reported position may miss its prediction before it counts as a locate rather than
/// as jitter, in quarter notes.
const LOCATE_QUARTERS: f64 = 1.0;

fn capture_clock(sample_rate: u32, bpm: f64, meter: Meter) -> CaptureClock<f64> {
    assert!(sample_rate > 0, "sample rate must be positive");
    assert!(bpm.is_finite() && bpm > 0.0, "bpm must be finite and positive, got {bpm}");
    CaptureClock::new(sample_rate, bpm, meter, 0.0)
}

/// What one block's transport comes to. Fails where a block could not be counted any more, and on
/// a tempo that is none.
fn readings(
    clock: &CaptureClock<f64>,
    transport: &Transport<f64>,
    frames: usize,
) -> Readings<f64> {
    if transport.playing && !transport.offline && frames > 0 {
        let bpm = transport.bpm;
        assert!(bpm.is_finite() && bpm > 0.0, "bpm must be finite and positive, got {bpm}");
    }
    let map = clock.map();
    let captured = clock.captured();
    let last = map.last();
    let sample_rate = f64::from(map.sample_rate());
    let unchanged = same_bpm(transport.bpm, last.bpm);
    let bpm = if unchanged && transport.meter == last.meter { last.bpm } else { transport.bpm };
    let quarters_per_bar = quarters_per_bar(transport.meter);
    // A source with no position cannot say where the bar line is. The best available reading of
    // "play was pressed" is that it was pressed on one.
    let phase = transport.position.map_or(0.0, |q| (q / quarters_per_bar).rem_euclid(1.0));
    let bars = elapsed_bars(map, captured);
    let per_bar = quarters_per_bar * 60.0 * sample_rate / bpm;
    let shift = (phase - (bars - map.bar_phase())).rem_euclid(1.0);
    let block = frames as f64;
    let frames_ahead = (shift * per_bar).round() as u64;
    let room = u64::MAX - captured;
    let taken = frames_ahead.checked_add(frames as u64);
    assert!(taken.is_some_and(|taken| taken <= room), "the frame counter is full");
    assert!(clock.offline_blocks() < u64::MAX, "the block counter is full");
    Readings {
        same_bpm: unchanged,
        quarters: map.quarters_at(captured),
        bars,
        jumped: match (transport.position, clock.expected()) {
            (Some(now), Some(expected)) => (now - expected).abs() > LOCATE_QUARTERS,
            _ => false,
        },
        bar_phase: -phase,
        shift: frames_ahead,
        nearly_there: shift * per_bar <= block,
        just_past: (1.0 - shift) * per_bar <= block,
        onward: transport
            .position
            .map(|q| q + frames as f64 * transport.bpm / (60.0 * sample_rate)),
    }
}

trait Rolling {
    /// Call once per block, before writing to the ring.
    fn roll(&mut self, transport: &Transport<f64>, frames: usize) -> Advance;
    /// Bars elapsed at the write head.
    fn head_bars(&self) -> f64;
    /// Re-phases the bar lines so that the write head is on a downbeat.
    fn set_downbeat_now(&mut self);
}

impl Rolling for CaptureClock<f64> {
    fn roll(&mut self, transport: &Transport<f64>, frames: usize) -> Advance {
        let readings = readings(self, transport, frames);
        self.advance(transport, frames, &readings)
    }

    fn head_bars(&self) -> f64 {
        self.map().bars_at(self.captured())
    }

    fn set_downbeat_now(&mut self) {
        let phase = downbeat_phase(self.map(), self.captured());
        self.set_bar_phase(phase);
    }
}

/// Estimates tempo from a MIDI clock stream.
struct TempoEstimate {
    sample_rate: u32,
    pll: ClockPll<f64>,
}

impl TempoEstimate {
    fn new(sample_rate: u32, initial_bpm: f64) -> TempoEstimate {
        TempoEstimate { sample_rate, pll: ClockPll::new(sample_rate, initial_bpm) }
    }

    fn bpm(&self) -> f64 {
        self.pll.bpm()
    }
    fn is_playing(&self) -> bool {
        self.pll.is_playing()
    }
    fn rejected(&self) -> u64 {
        self.pll.rejected()
    }
    fn settled(&self) -> bool {
        self.pll.settled()
    }
    /// Quarter notes since the last start or continue.
    fn quarters(&self) -> f64 {
        self.pll.ticks() as f64 / CLOCK_PPQ
    }

    /// The tempo whose ticks are `interval` samples apart, and the other way round.
    fn tempo_of(&self, interval: f64) -> f64 {
        60.0 * f64::from(self.sample_rate) / (interval * CLOCK_PPQ)
    }

    /// Feeds one message, stamped with the frame that it arrived at.
    fn feed(&mut self, message: ClockMessage, at_frame: u64) {
        let interval = match self.pll.last_tick() {
            Some(previous) => at_frame.saturating_sub(previous) as f64,
            None => 0.0,
        };
        let ratio = interval / self.tempo_of(self.pll.bpm());
        let nearest = ratio.round();
        let close = (ratio - nearest).abs() <= 0.15;
        let newest = self.pll.window().last().map_or(0, |point| point.0);
        assert!(newest <= u64::MAX - 16, "the tick index is full");
        assert!(self.pll.ticks() < u64::MAX, "the tick counter is full");
        assert!(self.pll.rejected() < u64::MAX, "the counter of rejected ticks is full");
        self.pll.feed(message, at_frame, nearest as u64, close);
        if message == ClockMessage::Tick {
            self.refit();
        }
    }

    /// Ordinary least squares on tick index and timestamp, giving samples per tick.
    fn refit(&mut self) {
        if !self.pll.settled() {
            return;
        }
        let points = self.pll.window();
        let n = points.len() as f64;
        let mean_index = points.iter().map(|p| p.0 as f64).sum::<f64>() / n;
        let mean_time = points.iter().map(|p| p.1 as f64).sum::<f64>() / n;
        let mut covariance = 0.0;
        let mut variance = 0.0;
        for (index, stamp) in points {
            let dx = *index as f64 - mean_index;
            covariance += dx * (*stamp as f64 - mean_time);
            variance += dx * dx;
        }
        if variance <= 0.0 {
            return;
        }
        let slope = covariance / variance;
        if slope > 0.0 && slope.is_finite() {
            let bpm = self.tempo_of(slope);
            self.pll.set_bpm(bpm);
        }
    }
}

/// Microseconds that a tempo gives a quarter note.
fn micros_per_quarter(bpm: f64) -> u64 {
    (60_000_000.0 / bpm.max(0.001)).round() as u64
}

/// Writes a type 0 Standard MIDI File for `selection`.
fn write_clip(
    selection: Selection,
    map: &TempoMap<f64>,
    clip: &Clip<'_>,
    options: &SmfOptions,
) -> Vec<u8> {
    let ppq = f64::from(options.ppq.max(1));
    let origin = map.quarters_at(selection.start);
    let tick = |frame: u64| -> u32 {
        let quarters = map.quarters_at(frame.max(selection.start)) - origin;
        (quarters * ppq).round().max(0.0) as u32
    };
    for note in clip.notes {
        let inside = selection.start <= note.start && note.start < selection.end;
        assert!(!inside || tick(note.start) < u32::MAX, "a note is struck past the last tick");
    }
    waveroll::smf::write(selection, map, clip, options, tick, micros_per_quarter)
}

// --------------------------------------------------------------------------------
// Tempo
// --------------------------------------------------------------------------------

#[test]
fn a_bar_at_120_is_two_seconds() {
    let m = tempo_map(SR, 120.0, Meter::four_four());
    assert!((m.frames_per_bar_at(0) - 96_000.0).abs() < 1e-6);
    assert!((m.bars_at(96_000) - 1.0).abs() < 1e-12);
    assert_eq!(m.frame_at_bars(1.0), 96_000);
}

#[test]
fn sixteen_bars_at_the_documented_tempi() {
    for (bpm, seconds) in [(90.0, 42.666_666), (120.0, 32.0), (174.0, 22.068_965)] {
        let m = tempo_map(SR, bpm, Meter::four_four());
        let frames = m.frame_at_bars(16.0) as f64;
        assert!(
            (frames / SR as f64 - seconds).abs() < 1e-3,
            "16 bars at {bpm} should be {seconds}s, got {}s",
            frames / SR as f64
        );
    }
}

#[test]
fn six_eight_is_three_quarters_to_the_bar() {
    assert!((quarters_per_bar(Meter::new(6, 8)) - 3.0).abs() < 1e-12);
    assert!((quarters_per_bar(Meter::new(7, 8)) - 3.5).abs() < 1e-12);
    let m = tempo_map(SR, 120.0, Meter::new(6, 8));
    // Three quarters at 120 bpm is 1.5 s.
    assert!((m.frames_per_bar_at(0) - 72_000.0).abs() < 1e-6);
}

#[test]
fn history_keeps_its_own_tempo() {
    let mut m = tempo_map(SR, 120.0, Meter::four_four());
    // Four bars at 120, then double the tempo.
    let change = m.frame_at_bars(4.0);
    m.observe(change, 240.0, Meter::four_four());
    assert_eq!(m.len(), 2);
    // The old region still reads at the old tempo.
    assert!((m.bars_at(96_000) - 1.0).abs() < 1e-9, "bar 1 must not move when bar 5 changes");
    // And the new region runs twice as fast: four more bars in half the frames.
    let eight = m.frame_at_bars(8.0);
    assert_eq!(eight - change, 4 * 48_000);
}

#[test]
fn bars_and_frames_round_trip() {
    let mut m = tempo_map(SR, 128.0, Meter::four_four());
    m.observe(m.frame_at_bars(3.0), 91.5, Meter::new(3, 4));
    m.observe(m.frame_at_bars(9.0), 174.0, Meter::new(7, 8));
    // A crude deterministic sweep beats a random one here: it visits every segment boundary.
    let mut bars = 0.0;
    while bars < 24.0 {
        let frame = m.frame_at_bars(bars);
        let back = m.bars_at(frame);
        let tolerance = 2.0 / m.frames_per_bar_at(frame); // one frame, expressed in bars
        assert!(
            (back - bars).abs() < tolerance,
            "{bars} bars -> frame {frame} -> {back} bars, off by more than a frame"
        );
        bars += 0.125;
    }
}

#[test]
fn bars_never_decrease() {
    let mut m = tempo_map(SR, 100.0, Meter::four_four());
    m.observe(240_000, 60.0, Meter::new(5, 4));
    m.observe(600_000, 200.0, Meter::four_four());
    let mut previous = -1.0;
    for frame in (0..1_200_000).step_by(997) {
        let bars = m.bars_at(frame);
        assert!(bars >= previous, "bars went backwards at frame {frame}");
        previous = bars;
    }
}

#[test]
fn an_unchanged_tempo_does_not_grow_the_map() {
    let mut m = tempo_map(SR, 120.0, Meter::four_four());
    for beat in 1..500u64 {
        m.observe(beat * 24_000, 120.0, Meter::four_four());
    }
    assert_eq!(m.len(), 1, "a clock re-reporting the same tempo must not append");
}

// --------------------------------------------------------------------------------
// Grid
// --------------------------------------------------------------------------------

fn flat() -> TempoMap<f64> {
    tempo_map(SR, 120.0, Meter::four_four())
}

/// A dependency-free LCG. Reproducible, and it keeps the crate's dependency list empty.
struct Lcg(u64);
impl Lcg {
    fn next(&mut self) -> u64 {
        self.0 = self.0.wrapping_mul(6364136223846793005).wrapping_add(1442695040888963407);
        self.0 >> 11
    }
    fn below(&mut self, n: u64) -> u64 { self.next() % n }
}

#[test]
fn auto_lands_on_one_bar_at_the_default_view() {
    // 16 bars across a full-screen canvas.
    assert_eq!(auto_unit(16.0, 1800.0, AUTO_TARGET_PX), 1.0);
    assert_eq!(auto_unit(16.0, 1280.0, AUTO_TARGET_PX), 1.0);
}

#[test]
fn auto_gets_finer_as_you_zoom_in() {
    let width = 1600.0;
    let mut previous = f64::INFINITY;
    for bars_visible in [64.0, 32.0, 16.0, 8.0, 4.0, 2.0, 1.0, 0.5] {
        let unit = auto_unit(bars_visible, width, AUTO_TARGET_PX);
        assert!(unit <= previous, "zooming in must never coarsen the grid");
        previous = unit;
    }
}

#[test]
fn auto_is_always_on_the_ladder() {
    let mut rng = Lcg(0xA11CE);
    for _ in 0..2000 {
        let bars = 0.25 + (rng.below(10_000) as f64) / 100.0;
        let px = 200.0 + rng.below(3000) as f64;
        let unit = auto_unit(bars, px, AUTO_TARGET_PX);
        assert!(LADDER.contains(&unit), "{unit} is not a rung");
    }
}

#[test]
fn a_click_always_contains_the_click() {
    let map = flat();
    let mut rng = Lcg(0xC0FFEE);
    for _ in 0..5000 {
        let unit = LADDER[rng.below(LADDER.len() as u64) as usize];
        let frame = rng.below(48_000 * 120);
        let sel = cell_at(&map, unit, frame);
        assert!(
            sel.start <= frame && frame < sel.end,
            "unit {unit}: cell [{}, {}) does not contain {frame}",
            sel.start, sel.end
        );
    }
}

#[test]
fn a_click_selects_exactly_one_cell() {
    let map = flat();
    for unit in LADDER {
        let sel = cell_at(&map, unit, 1_234_567);
        let bars = map.bars_at(sel.end) - map.bars_at(sel.start);
        assert!(
            (bars - unit).abs() < 1e-6,
            "unit {unit}: a click selected {bars} bars"
        );
    }
}

#[test]
fn a_drag_is_always_a_whole_number_of_cells_and_never_inverts() {
    let map = flat();
    let mut rng = Lcg(0x5EED);
    for _ in 0..5000 {
        let unit = LADDER[rng.below(LADDER.len() as u64) as usize];
        let a = rng.below(48_000 * 120);
        let b = rng.below(48_000 * 120);
        let sel = snap_range(&map, unit, a, b);
        assert!(sel.end > sel.start, "unit {unit}: {a}..{b} produced an empty selection");
        let cells = (map.bars_at(sel.end) - map.bars_at(sel.start)) / unit;
        assert!(
            (cells - cells.round()).abs() < 1e-6 && cells.round() >= 1.0,
            "unit {unit}: {a}..{b} produced {cells} cells"
        );
        assert!(sel.start <= a.min(b) && sel.end >= a.max(b), "the drag escaped its own span");
    }
}

#[test]
fn a_drag_that_never_moved_still_selects_a_cell() {
    let map = flat();
    for unit in LADDER {
        let sel = snap_range(&map, unit, 500_000, 500_000);
        assert!(!sel.is_empty());
        let cells = (map.bars_at(sel.end) - map.bars_at(sel.start)) / unit;
        assert!((cells - 1.0).abs() < 1e-6);
    }
    // And a drag whose ends land exactly on the same grid line.
    let on_the_line = map.frame_at_bars(4.0);
    let sel = snap_range(&map, 1.0, on_the_line, on_the_line);
    assert_eq!(sel.frames(), 96_000);
}

#[test]
fn dragging_backwards_is_the_same_as_dragging_forwards() {
    let map = flat();
    for unit in LADDER {
        assert_eq!(
            snap_range(&map, unit, 200_000, 900_000),
            snap_range(&map, unit, 900_000, 200_000)
        );
    }
}

#[test]
fn snapping_holds_across_a_tempo_change() {
    let mut map = tempo_map(SR, 120.0, Meter::four_four());
    let change = map.frame_at_bars(8.0);
    map.observe(change, 174.0, Meter::four_four());
    // A drag spanning the change: still a whole number of bars, even though the two halves are
    // different numbers of samples.
    let a = map.frame_at_bars(6.5);
    let b = map.frame_at_bars(10.25);
    let sel = snap_range(&map, 1.0, a, b);
    // Tolerance in frames, not in bars. `frame_at_bars` rounds to a whole frame, so at 174 bpm
    // half a frame is already 7.6e-6 of a bar — a bar-domain epsilon would be measuring the
    // sample grid and calling it an error.
    let one_frame_of_a_bar = |f: u64| 1.0 / map.frames_per_bar_at(f);
    assert!((map.bars_at(sel.start) - 6.0).abs() < one_frame_of_a_bar(sel.start));
    assert!((map.bars_at(sel.end) - 11.0).abs() < one_frame_of_a_bar(sel.end));
    // And the two halves really are different lengths, or this test proves nothing.
    assert!(map.frames_per_bar_at(0) > map.frames_per_bar_at(change) * 1.4);
}

#[test]
fn a_range_taken_to_the_head_never_reaches_past_it() {
    let map = flat();
    let head = map.frame_at_bars(9.4); // four tenths of the way into bar 10
    let from = map.frame_at_bars(4.0);
    // The ordinary snap rounds the end up, past audio that does not exist yet. That is correct
    // for a drag and wrong for "everything since the mark", which is why both exist.
    let eager = snap_range(&map, 1.0, from, head);
    assert!(eager.end > head, "this is the behaviour the other function exists to avoid");

    let complete = snap_range_upto(&map, 1.0, from, head, head).expect("five whole bars exist");
    assert!(complete.end <= head, "a completed range may not pass the head");
    assert!((map.bars_at(complete.end) - 9.0).abs() < 1e-6, "it should stop at bar 9");
    assert!((map.bars_at(complete.start) - 4.0).abs() < 1e-6);
}

#[test]
fn a_range_with_no_whole_cell_yet_is_nothing_rather_than_a_guess() {
    let map = flat();
    let from = map.frame_at_bars(4.2);
    let head = map.frame_at_bars(4.6);
    // Not one whole bar has passed since the mark, so at a one-bar grid there is nothing to
    // take. Returning the containing cell would hand back audio from before the mark.
    assert!(snap_range_upto(&map, 1.0, from, head, head).is_none());
    // At a finer grid the same span does contain whole cells.
    assert!(snap_range_upto(&map, 0.125, from, head, head).is_some());
}

#[test]
fn the_number_row_rounds_to_whole_cells() {
    let map = flat();
    let head = map.frame_at_bars(64.0); // on a bar line
    let expected = [2.0, 3.0, 5.0, 6.0, 8.0, 10.0, 11.0, 13.0, 14.0, 16.0];
    for (i, want) in expected.iter().enumerate() {
        let sel = percent_from_head(&map, 1.0, head, 16.0, i as u32 + 1).expect("whole cells");
        let bars = map.bars_at(sel.end) - map.bars_at(sel.start);
        assert!(
            (bars - want).abs() < 1e-6,
            "key {} selected {bars} bars, expected {want}",
            (i + 1) % 10
        );
    }
}

#[test]
fn the_number_row_gives_a_loopable_length_from_anywhere() {
    // The head is almost never on a grid line, and this is the property that matters: whatever
    // it comes out as, it has to be a whole number of cells or it will not loop.
    let map = flat();
    let mut rng = Lcg(0x10AD);
    for _ in 0..2000 {
        let head = map.frame_at_bars(20.0) + rng.below(48_000 * 90);
        let unit = LADDER[rng.below(LADDER.len() as u64) as usize];
        let tenths = 1 + rng.below(10) as u32;
        let Some(sel) = percent_from_head(&map, unit, head, 16.0, tenths) else { continue };
        let cells = (map.bars_at(sel.end) - map.bars_at(sel.start)) / unit;
        assert!(
            (cells - cells.round()).abs() < 1e-6 && cells.round() >= 1.0,
            "unit {unit}, key {tenths}: {cells} cells is not a loop"
        );
        assert!(sel.end <= head, "it may not reach past the head");
    }
}

#[test]
fn the_number_row_never_reaches_past_the_window_or_the_head() {
    let map = flat();
    let mut rng = Lcg(0xBEEF);
    for _ in 0..2000 {
        let head = rng.below(48_000 * 60);
        let window = 4.0 + (rng.below(6000) as f64) / 100.0;
        let unit = LADDER[rng.below(LADDER.len() as u64) as usize];
        let tenths = 1 + rng.below(10) as u32;
        let Some(sel) = percent_from_head(&map, unit, head, window, tenths) else { continue };
        assert!(sel.end <= head, "it may not reach past the head");
        assert!(sel.start <= sel.end);
        let span = map.bars_at(sel.end) - map.bars_at(sel.start);
        assert!(
            span <= window + 1e-6,
            "selected {span} bars of a {window}-bar window"
        );
    }
}

#[test]
fn zero_and_ten_both_mean_the_whole_window() {
    let map = flat();
    let head = map.frame_at_bars(40.0);
    let all = percent_from_head(&map, 1.0, head, 16.0, 10).expect("the whole window");
    assert!((map.bars_at(all.end) - map.bars_at(all.start) - 16.0).abs() < 1e-6);
    // Out-of-range keys clamp rather than producing nonsense.
    assert_eq!(percent_from_head(&map, 1.0, head, 16.0, 0), percent_from_head(&map, 1.0, head, 16.0, 1));
    assert_eq!(percent_from_head(&map, 1.0, head, 16.0, 99), Some(all));
}

/// The grid must honour a hand-set downbeat, or the correction exists in the map and nowhere
/// the user can see it.
#[test]
fn snapping_follows_a_hand_set_downbeat() {
    let mut map = tempo_map(SR, 120.0, Meter::four_four());
    let downbeat = map.frame_at_bars(4.375);
    map.set_downbeat(downbeat);

    // A click just after the tapped downbeat must select the cell that starts on it.
    let sel = cell_at(&map, 1.0, downbeat + 1000);
    assert_eq!(
        sel.start, downbeat,
        "the cell should begin on the downbeat the user tapped"
    );
    assert!(sel.end > sel.start);

    // And a drag around it snaps to the same lines.
    let dragged = snap_range(&map, 1.0, downbeat + 1000, downbeat + 200_000);
    assert_eq!(dragged.start, downbeat);
}

fn setup(zoom: f64) -> (TempoMap<f64>, Viewport<f64>) {
    let m = tempo_map(SR, 120.0, Meter::four_four());
    let mut view = View::new(16.0);
    view.zoom = zoom;
    view.clamp();
    let vp = resolve(&view, &m, m.frame_at_bars(40.0), 1600);
    (m, vp)
}

#[test]
fn fitted_at_one_bar_there_are_seventeen_lines() {
    let (_m, vp) = setup(1.0);
    let out = rulings(&vp, 1.0);
    // Sixteen bars, so seventeen boundaries counting both ends.
    assert_eq!(out.len(), 17, "got {:?}", out.iter().map(|r| r.fraction).collect::<Vec<_>>());
    assert!((out[0].fraction - 0.0).abs() < 1e-9);
    assert!((out[16].fraction - 1.0).abs() < 1e-9);
    // Evenly spaced, which is the property a wrapping display exists to provide.
    for pair in out.windows(2) {
        assert!((pair[1].fraction - pair[0].fraction - 1.0 / 16.0).abs() < 1e-9);
    }
}

#[test]
fn the_lap_boundaries_outrank_the_bar_lines() {
    let (_m, vp) = setup(1.0);
    let out = rulings(&vp, 1.0);
    assert_eq!(out[0].rule, Rule::Lap, "the start of the lap is where the display wraps");
    assert_eq!(out[16].rule, Rule::Lap, "and so is the end");
    assert!(out[1..16].iter().all(|r| r.rule == Rule::Bar));
}

#[test]
fn sub_bar_units_add_cells_without_losing_the_bars() {
    let (_m, vp) = setup(1.0);
    let out = rulings(&vp, 0.25);
    assert_eq!(out.len(), 65, "sixteen bars of quarter-bar cells");
    let bars = out.iter().filter(|r| r.rule != Rule::Cell).count();
    assert_eq!(bars, 17, "every bar line survives the finer grid");
}

#[test]
fn an_absurdly_fine_unit_drops_the_cells_rather_than_thinning_them() {
    let (_m, vp) = setup(1.0);
    // 1/512 of a bar over sixteen bars is 8192 lines, all inside a pixel of each other.
    let out = rulings(&vp, 1.0 / 512.0);
    assert_eq!(out.len(), 17, "it should fall back to bar lines, not draw an irregular subset");
    assert!(out.iter().all(|r| r.rule != Rule::Cell));
}

#[test]
fn zoomed_in_the_lines_still_land_on_the_grid() {
    let (m, vp) = setup(8.0);
    let out = rulings(&vp, 0.25);
    assert!(!out.is_empty());
    for ruling in &out {
        assert!((-0.001..=1.001).contains(&ruling.fraction), "off screen: {ruling:?}");
        // The line must sit exactly where a snapped selection edge would, or the two disagree
        // by a fraction of a pixel at some zoom levels and not others.
        let bars = vp.bars_shown(ruling.fraction);
        let snapped = cell_at(&m, 0.25, m.frame_at_bars(bars));
        let edge = m.bars_at(snapped.start);
        assert!(
            (bars - edge).abs() < 1e-6,
            "a ruling at {bars} bars is not on a cell boundary ({edge})"
        );
    }
}

#[test]
fn a_tempo_change_does_not_bend_the_grid() {
    let mut m = tempo_map(SR, 120.0, Meter::four_four());
    m.observe(m.frame_at_bars(36.0), 174.0, Meter::four_four());
    let view = View::new(16.0);
    let vp = resolve(&view, &m, m.frame_at_bars(44.0), 1600);
    let out = rulings(&vp, 1.0);
    // Bars are bars whatever the tempo did: the spacing on screen stays uniform because the
    // axis is musical time, not samples.
    for pair in out.windows(2) {
        assert!(
            (pair[1].fraction - pair[0].fraction - 1.0 / 16.0).abs() < 1e-9,
            "the grid stretched across the tempo change"
        );
    }
}

// --------------------------------------------------------------------------------
// View
// --------------------------------------------------------------------------------

const W: u32 = 1600;

fn map() -> TempoMap<f64> {
    tempo_map(SR, 120.0, Meter::four_four())
}

fn at_bars(m: &TempoMap<f64>, bars: f64) -> u64 {
    m.frame_at_bars(bars)
}

#[test]
fn fitted_the_canvas_is_exactly_one_lap() {
    let m = map();
    let view = View::new(16.0);
    let vp = resolve(&view, &m, at_bars(&m, 5.0), W);
    assert_eq!(vp.lap, 0);
    assert!((vp.left_bars - 0.0).abs() < 1e-9);
    assert!((vp.span_bars - 16.0).abs() < 1e-9);
    assert!((vp.head_fraction() - 5.0 / 16.0).abs() < 1e-9);
}

#[test]
fn the_head_sweeps_and_the_lap_advances() {
    let m = map();
    let view = View::new(16.0);
    for (captured_bars, lap, fraction) in
        [(0.0, 0u64, 0.0), (8.0, 0, 0.5), (15.9, 0, 15.9 / 16.0), (16.0, 1, 0.0), (20.0, 1, 0.25)]
    {
        let vp = resolve(&view, &m, at_bars(&m, captured_bars), W);
        assert_eq!(vp.lap, lap, "at {captured_bars} bars");
        assert!(
            (vp.head_fraction() - fraction).abs() < 1e-6,
            "at {captured_bars} bars the head is at {}, expected {fraction}",
            vp.head_fraction()
        );
    }
}

#[test]
fn columns_ahead_of_the_head_show_the_previous_lap() {
    let m = map();
    let view = View::new(16.0);
    // Four bars into the second lap.
    let captured = at_bars(&m, 20.0);
    let vp = resolve(&view, &m, captured, W);

    // A column behind the head is this lap's audio, and recent. Bars are absolute, so two
    // bars into lap 1 is bar 18, not bar 2 — the lap index is not subtracted anywhere.
    let behind = vp.frame_shown(&m, 0.125).expect("behind the head");
    assert!((m.bars_at(behind) - 18.0).abs() < 1e-6, "expected bar 18, got {}", m.bars_at(behind));
    assert!((m.bars_at(behind) - vp.lap_start_bars - 2.0).abs() < 1e-6, "two bars into the lap");

    // A column ahead of the head is last lap's, and therefore older than the head but newer
    // than one window back — which is the whole definition of what is still on screen.
    let ahead = vp.frame_shown(&m, 0.5).expect("the previous lap exists").min(captured);
    let ahead_bars = m.bars_at(ahead);
    assert!(
        (ahead_bars - 8.0).abs() < 1e-6,
        "a column at half width on lap 1 should show bar 8, got {ahead_bars}"
    );
    assert!(ahead < captured, "it must be older than the head");
    assert!(ahead > captured - (at_bars(&m, 16.0)), "and still inside the window");
}

#[test]
fn on_the_first_lap_there_is_nothing_ahead_of_the_head() {
    let m = map();
    let view = View::new(16.0);
    let vp = resolve(&view, &m, at_bars(&m, 5.0), W);
    assert!(vp.frame_shown(&m, 0.1).is_some(), "behind the head is written");
    assert!(
        vp.frame_shown(&m, 0.9).is_none(),
        "ahead of the head on lap zero is empty, not old"
    );
}

#[test]
fn zoom_holds_the_anchor_still() {
    let m = map();
    let mut view = View::new(16.0);
    let captured = at_bars(&m, 40.0);
    for anchor in [0.0, 0.25, 0.5, 0.75, 1.0] {
        view.home();
        let before = resolve(&view, &m, captured, W).bars_shown(anchor);
        view.zoom_about(4.0, anchor);
        let after = resolve(&view, &m, captured, W).bars_shown(anchor);
        // The anchor can only move if clamping pushed the view back inside the window, which
        // is exactly what happens at the two extremes.
        let slack = view.window_bars - view.span_bars();
        let pinned = view.scroll_bars > 1e-9 && view.scroll_bars < slack - 1e-9;
        if pinned {
            assert!(
                (before - after).abs() < 1e-9,
                "anchor {anchor} moved from {before} to {after}"
            );
        }
        assert!((view.span_bars() - 4.0).abs() < 1e-9, "zooming 4x should show 4 bars");
    }
}

#[test]
fn the_view_can_never_leave_its_window() {
    let m = map();
    let mut view = View::new(16.0);
    // Drive it hard in both directions; it must stay inside the lap at every step.
    for i in 0..200 {
        view.zoom_about(if i % 3 == 0 { 0.5 } else { 1.7 }, (i % 5) as f64 / 4.0);
        view.scroll_by(if i % 2 == 0 { -3.0 } else { 2.0 });
        assert!(view.zoom >= 1.0 && view.zoom <= MAX_ZOOM, "zoom escaped: {}", view.zoom);
        assert!(view.scroll_bars >= -1e-9, "scrolled before the lap: {}", view.scroll_bars);
        assert!(
            view.scroll_bars + view.span_bars() <= view.window_bars + 1e-9,
            "scrolled past the lap: {} + {} > {}",
            view.scroll_bars,
            view.span_bars(),
            view.window_bars
        );
    }
    let vp = resolve(&view, &m, at_bars(&m, 33.0), W);
    assert!(vp.left_bars >= vp.lap_start_bars - 1e-9);
    assert!(vp.left_bars + vp.span_bars <= vp.lap_start_bars + vp.window_bars + 1e-9);
}

#[test]
fn home_is_reachable_from_anywhere() {
    let mut view = View::new(16.0);
    view.zoom_about(300.0, 0.7);
    view.scroll_by(0.9);
    assert!(!view.is_home());
    view.home();
    assert!(view.is_home());
    assert!((view.span_bars() - 16.0).abs() < 1e-9);
}

#[test]
fn fractions_and_bars_are_inverses() {
    let m = map();
    let mut view = View::new(16.0);
    view.zoom_about(8.0, 0.5);
    let vp = resolve(&view, &m, at_bars(&m, 25.0), W);
    for i in 0..=20 {
        let u = i as f64 / 20.0;
        assert!((vp.fraction_at(vp.bars_shown(u)) - u).abs() < 1e-12);
    }
}

#[test]
fn the_reduction_ratio_reports_when_to_stop_drawing_an_envelope() {
    let m = map();
    let mut view = View::new(16.0);
    // Fitted, 16 bars at 120 BPM is 32 s: 1.536 M samples over 1600 columns.
    let fitted = resolve(&view, &m, at_bars(&m, 40.0), W).frames_per_column(&m);
    assert!((fitted - 1_536_000.0 / 1600.0).abs() < 1.0, "got {fitted}");
    // Zoomed all the way in there is less than one sample per column, which is the signal to
    // switch from a min/max envelope to band-limited reconstruction.
    view.zoom = MAX_ZOOM;
    let zoomed = resolve(&view, &m, at_bars(&m, 40.0), W).frames_per_column(&m);
    assert!(zoomed < 1.0, "at maximum zoom there should be under a sample per column: {zoomed}");
}

#[test]
fn every_column_is_covered_exactly_once_and_in_order() {
    let m = map();
    let view = View::new(16.0);
    let vp = resolve(&view, &m, at_bars(&m, 40.0), 640);
    let cols = vp.source_columns(&m);
    assert_eq!(cols.len(), 640);

    // Behind the head the ranges tile forwards without gaps; ahead of it they tile forwards
    // too, one lap back. The seam between the two is the head, and it is the only place the
    // sequence is allowed to jump.
    let mut seams = 0;
    for pair in cols.windows(2) {
        let (a, b) = (pair[0], pair[1]);
        assert!(a.count > 0 && b.count > 0, "lap 2 has no empty columns");
        if b.start != a.start + u64::from(a.count) {
            seams += 1;
        }
    }
    assert_eq!(seams, 1, "there should be exactly one discontinuity, at the write head");
}

#[test]
fn a_column_straddling_the_head_stops_at_it() {
    let m = map();
    let view = View::new(16.0);
    let captured = at_bars(&m, 24.0); // half way through lap 1
    let vp = resolve(&view, &m, captured, 64);
    let cols = vp.source_columns(&m);
    // Column 32 spans the head at exactly half width.
    let straddling = cols[31];
    assert!(
        straddling.start + u64::from(straddling.count) <= captured,
        "a column may never read past the write head: {} + {} > {captured}",
        straddling.start,
        straddling.count
    );
    for (i, col) in cols.iter().enumerate() {
        assert!(
            col.start + u64::from(col.count) <= captured,
            "column {i} reads past the head"
        );
    }
}

#[test]
fn the_first_lap_has_empty_columns_ahead_of_the_head() {
    let m = map();
    let view = View::new(16.0);
    let vp = resolve(&view, &m, at_bars(&m, 4.0), 64);
    let cols = vp.source_columns(&m);
    let written = cols.iter().filter(|c| c.count > 0).count();
    // A quarter of a 16-bar lap.
    assert!((15..=17).contains(&written), "expected about 16 written columns, got {written}");
    assert!(cols[0].count > 0);
    assert_eq!(cols[63].count, 0, "nothing has ever been captured there");
}

#[test]
fn zoomed_in_past_one_sample_a_column_still_names_a_sample() {
    let m = map();
    let mut view = View::new(16.0);
    view.zoom = MAX_ZOOM;
    let vp = resolve(&view, &m, at_bars(&m, 40.0), 1600);
    assert!(vp.frames_per_column(&m) < 1.0);
    let cols = vp.source_columns(&m);
    assert!(
        cols.iter().all(|c| c.count >= 1),
        "a column narrower than a sample must still name one, or the trace goes blank"
    );
}

#[test]
fn a_tempo_change_does_not_move_the_lap_lines() {
    // The lap is a whole number of bars whatever the tempo does, which is the property the
    // whole wrap-mode display rests on.
    let mut m = tempo_map(SR, 120.0, Meter::four_four());
    m.observe(m.frame_at_bars(20.0), 174.0, Meter::four_four());
    let view = View::new(16.0);
    for bars in [4.0, 15.99, 16.0, 24.0, 32.0, 47.5] {
        let vp = resolve(&view, &m, m.frame_at_bars(bars), W);
        let within = vp.head_bars - vp.lap_start_bars;
        assert!(
            (0.0..16.0 + 1e-6).contains(&within),
            "at {bars} bars the head is {within} into a 16-bar lap"
        );
        assert!((vp.lap_start_bars % 16.0).abs() < 1e-6, "lap start is not on a bar line");
    }
}

// --------------------------------------------------------------------------------
// Clock
// --------------------------------------------------------------------------------

/// Frames between clock ticks at a given tempo.
fn tick_interval(bpm: f64) -> f64 {
    60.0 * SR as f64 / (bpm * CLOCK_PPQ)
}

fn feed_steady(pll: &mut TempoEstimate, bpm: f64, ticks: usize, start_at: u64) -> u64 {
    let step = tick_interval(bpm);
    let mut at = start_at as f64;
    for _ in 0..ticks {
        pll.feed(ClockMessage::Tick, at.round() as u64);
        at += step;
    }
    at as u64
}

// ---- decoding ----

#[test]
fn transport_bytes_decode() {
    assert_eq!(decode_clock(&[0xF8]), Some(ClockMessage::Tick));
    assert_eq!(decode_clock(&[0xFA]), Some(ClockMessage::Start));
    assert_eq!(decode_clock(&[0xFB]), Some(ClockMessage::Continue));
    assert_eq!(decode_clock(&[0xFC]), Some(ClockMessage::Stop));
    assert_eq!(decode_clock(&[0x90, 60, 100]), None);
    assert_eq!(decode_clock(&[]), None);
}

#[test]
fn song_position_is_two_seven_bit_halves() {
    // Bar 5 in 4/4 is 64 sixteenths: 64 = 0x40 -> lsb 0x40, msb 0.
    assert_eq!(decode_clock(&[0xF2, 0x40, 0x00]), Some(ClockMessage::SongPosition(64)));
    // And the msb really is shifted by seven, not eight.
    assert_eq!(decode_clock(&[0xF2, 0x00, 0x01]), Some(ClockMessage::SongPosition(128)));
    assert_eq!(decode_clock(&[0xF2, 0x7F, 0x7F]), Some(ClockMessage::SongPosition(16_383)));
    assert_eq!(decode_clock(&[0xF2, 0x40]), None, "a truncated SPP is not a position");
}

// ---- the estimator ----

#[test]
fn a_clean_stream_converges_on_its_tempo() {
    for bpm in [60.0, 90.0, 120.0, 128.0, 174.0] {
        let mut pll = TempoEstimate::new(SR, 120.0);
        feed_steady(&mut pll, bpm, 48, 0);
        assert!(
            (pll.bpm() - bpm).abs() < 0.05,
            "expected {bpm}, estimated {}",
            pll.bpm()
        );
        assert_eq!(pll.rejected(), 0, "a clean stream must reject nothing");
    }
}

#[test]
fn jitter_does_not_reach_the_estimate() {
    // +/- 1 ms of jitter, which is a fair bit worse than a healthy IAC bus.
    let mut pll = TempoEstimate::new(SR, 120.0);
    let step = tick_interval(128.0);
    let jitter: [f64; 10] = [0.0, 48.0, -48.0, 20.0, -35.0, 12.0, -12.0, 44.0, -44.0, 5.0];
    let mut at = 100_000.0;
    for i in 0..200 {
        let stamp = (at + jitter[i % jitter.len()]).max(0.0);
        pll.feed(ClockMessage::Tick, stamp.round() as u64);
        at += step;
    }
    assert!(
        (pll.bpm() - 128.0).abs() < 0.5,
        "jitter moved the estimate to {}",
        pll.bpm()
    );
}

#[test]
fn one_scheduling_hiccup_does_not_spike_the_tempo() {
    let mut pll = TempoEstimate::new(SR, 120.0);
    let end = feed_steady(&mut pll, 120.0, 40, 0);
    let settled = pll.bpm();
    // The tick due at `end` arrives 3 ms late; the stream then carries on unshifted.
    pll.feed(ClockMessage::Tick, end + 144);
    feed_steady(&mut pll, 120.0, 20, end + tick_interval(120.0).round() as u64);
    assert!(
        (pll.bpm() - settled).abs() < 1.0,
        "a single late tick moved the tempo from {settled} to {}",
        pll.bpm()
    );
}

#[test]
fn a_dropped_tick_is_not_a_tempo_change() {
    // A tick going missing leaves an interval of exactly two, which a fit that assumed every
    // stamp was consecutive would read as half the tempo.
    let mut pll = TempoEstimate::new(SR, 120.0);
    let step = tick_interval(128.0);
    let mut at: f64 = 0.0;
    for i in 0..240 {
        if i % 17 != 0 || i == 0 {
            pll.feed(ClockMessage::Tick, at.round() as u64);
        }
        at += step;
    }
    assert!(
        (pll.bpm() - 128.0).abs() < 0.5,
        "one tick in seventeen dropped moved the estimate to {}",
        pll.bpm()
    );
    assert_eq!(pll.rejected(), 0, "a dropped tick is a hiccup, not a broken stream");
}

#[test]
fn a_real_tempo_change_is_tracked() {
    let mut pll = TempoEstimate::new(SR, 120.0);
    let end = feed_steady(&mut pll, 120.0, 48, 0);
    feed_steady(&mut pll, 140.0, 96, end);
    assert!(
        (pll.bpm() - 140.0).abs() < 1.0,
        "after four beats at the new tempo the estimate is still {}",
        pll.bpm()
    );
}

#[test]
fn a_gap_is_rejected_rather_than_averaged() {
    let mut pll = TempoEstimate::new(SR, 120.0);
    let end = feed_steady(&mut pll, 120.0, 48, 0);
    // The stream stops for four seconds, then resumes at the same tempo.
    let resumed = end + SR as u64 * 4;
    feed_steady(&mut pll, 120.0, 48, resumed);
    assert_eq!(pll.rejected(), 1, "the four-second gap should have been rejected once");
    assert!(
        (pll.bpm() - 120.0).abs() < 0.05,
        "the gap leaked into the estimate: {}",
        pll.bpm()
    );
}

#[test]
fn start_rewinds_and_stop_freezes_position() {
    let mut pll = TempoEstimate::new(SR, 120.0);
    pll.feed(ClockMessage::Start, 0);
    assert!(pll.is_playing());
    feed_steady(&mut pll, 120.0, 24, 0);
    assert!((pll.quarters() - 1.0).abs() < 1e-9, "24 ticks is one quarter");
    pll.feed(ClockMessage::Stop, 100_000);
    assert!(!pll.is_playing());
    let held = pll.quarters();
    feed_steady(&mut pll, 120.0, 24, 200_000);
    assert_eq!(pll.quarters(), held, "ticks while stopped must not advance position");
    pll.feed(ClockMessage::Start, 300_000);
    assert_eq!(pll.quarters(), 0.0, "Start means bar one");
}

#[test]
fn continue_resumes_from_a_song_position() {
    let mut pll = TempoEstimate::new(SR, 120.0);
    pll.feed(ClockMessage::SongPosition(64), 0); // bar 5 in 4/4
    pll.feed(ClockMessage::Continue, 0);
    assert!((pll.quarters() - 16.0).abs() < 1e-9, "64 sixteenths is 16 quarters");
    assert!(pll.is_playing());
}

// ---- the capture rule ----

#[test]
fn a_stopped_transport_captures_nothing() {
    let mut clock = capture_clock(SR, 120.0, Meter::four_four());
    let stopped = Transport::stopped(120.0, Meter::four_four());
    for _ in 0..100 {
        assert_eq!(clock.roll(&stopped, 128).frames, 0);
    }
    assert_eq!(clock.captured(), 0);
}

#[test]
fn an_offline_render_captures_nothing_even_though_it_is_playing() {
    let mut clock = capture_clock(SR, 120.0, Meter::four_four());
    let rolling = Transport::rolling(120.0, Meter::four_four());
    for _ in 0..10 {
        clock.roll(&rolling, 512);
    }
    let captured_before = clock.captured();

    // Now the host bounces: twenty minutes of song at 200x, transport reporting "playing".
    let bounce = Transport { offline: true, ..rolling };
    for _ in 0..100_000 {
        assert_eq!(clock.roll(&bounce, 512).frames, 0);
    }
    assert_eq!(
        clock.captured(),
        captured_before,
        "the export overwrote the take — this is the bug the offline guard exists for"
    );
    assert_eq!(clock.offline_blocks(), 100_000);

    // And it recovers afterwards.
    assert_eq!(clock.roll(&rolling, 512).frames, 512);
}

#[test]
fn capture_frames_are_monotonic_through_a_scripted_session() {
    // play, stop, locate backwards, loop the same bars, ramp the tempo, bounce, resume.
    let mut clock = capture_clock(SR, 120.0, Meter::four_four());
    let mut previous_bars = -1.0;
    let check = |clock: &CaptureClock<f64>, previous: &mut f64| {
        let bars = clock.head_bars();
        assert!(bars >= *previous, "bars went backwards: {bars} after {previous}");
        *previous = bars;
    };

    let rolling = Transport::rolling(120.0, Meter::four_four());
    for _ in 0..400 { clock.roll(&rolling, 512); check(&clock, &mut previous_bars); }
    let stopped = Transport::stopped(120.0, Meter::four_four());
    for _ in 0..50 { clock.roll(&stopped, 512); check(&clock, &mut previous_bars); }
    // A locate backwards changes nothing here, which is the whole point: capture time does not
    // know where the playhead went.
    for _ in 0..400 { clock.roll(&rolling, 512); check(&clock, &mut previous_bars); }
    // Tempo ramp.
    for i in 0..200 {
        let t = Transport::rolling(120.0 + i as f64 * 0.25, Meter::four_four());
        clock.roll(&t, 512);
        check(&clock, &mut previous_bars);
    }
    let bounce = Transport { offline: true, ..rolling };
    for _ in 0..1000 { clock.roll(&bounce, 512); check(&clock, &mut previous_bars); }
    for _ in 0..100 { clock.roll(&rolling, 512); check(&clock, &mut previous_bars); }

    assert!(clock.head_bars() > 0.0);
}

// ---- splices ----

const BLOCK: usize = 512;
/// Frames in one 4/4 bar at 120 BPM.
const BAR: f64 = 96_000.0;

/// Rolls `blocks` blocks at 120 BPM, threading the song position along at the same rate.
/// Returns where the playhead ends up, in quarter notes.
fn roll(clock: &mut CaptureClock<f64>, from_quarters: f64, blocks: usize) -> f64 {
    let mut quarters = from_quarters;
    let per_block = BLOCK as f64 * 120.0 / (60.0 * SR as f64);
    for _ in 0..blocks {
        clock.roll(&Transport::at(120.0, Meter::four_four(), quarters), BLOCK);
        quarters += per_block;
    }
    quarters
}

fn stop(clock: &mut CaptureClock<f64>, blocks: usize) {
    let stopped = Transport::stopped(120.0, Meter::four_four());
    for _ in 0..blocks {
        clock.roll(&stopped, BLOCK);
    }
}

/// Where the *first frame of the block just captured* sits within its bar, 0 to 1.
fn head_phase(clock: &CaptureClock<f64>, frames: usize) -> f64 {
    clock.map().bars_at(clock.captured() - frames as u64).rem_euclid(1.0)
}

/// Where a song position sits within its bar, in 4/4.
fn song_phase(quarters: f64) -> f64 {
    (quarters / 4.0).rem_euclid(1.0)
}

/// Two phases agree to within a block. Comparing modulo one bar, so 0.999 and 0.001 are close.
fn in_phase(a: f64, b: f64) -> bool {
    let d = (a - b).rem_euclid(1.0);
    d.min(1.0 - d) * BAR <= BLOCK as f64
}

#[test]
fn a_restart_somewhere_else_puts_the_bar_lines_back_on_the_music() {
    // The bug this exists for: stop in almost any DAW and the playhead returns to the top of
    // the arrangement. Press play again and capture carries on from the frame it stopped at,
    // so the grid rules the new take at whatever fraction of a bar the stop happened to leave.
    let mut clock = capture_clock(SR, 120.0, Meter::four_four());
    roll(&mut clock, 0.0, 400);
    stop(&mut clock, 50);

    // Play again from bar 10 and a third — nothing to do with where it stopped.
    let restart = 37.3;
    let advance = clock.roll(&Transport::at(120.0, Meter::four_four(), restart), BLOCK);

    assert!(advance.seam > 0, "the restart moved and nothing was inserted");
    assert!((advance.seam as f64) < BAR, "a splice may never cost a whole bar");
    assert!(
        in_phase(head_phase(&clock, BLOCK), song_phase(restart)),
        "the take resumes at {} of a bar, but the song is at {}",
        head_phase(&clock, BLOCK),
        song_phase(restart)
    );
}

#[test]
fn a_pause_that_resumes_where_it_stopped_costs_nothing() {
    // The other half of the same rule, and the reason the correction is measured rather than
    // applied blindly: a host that really does pause is already in phase, and spending a
    // half bar of ring to "fix" that would be the same bug wearing a different hat.
    let mut clock = capture_clock(SR, 120.0, Meter::four_four());
    let at = roll(&mut clock, 0.0, 400);
    let before = clock.captured();
    stop(&mut clock, 50);

    let advance = clock.roll(&Transport::at(120.0, Meter::four_four(), at), BLOCK);
    assert_eq!(advance.seam, 0, "resuming in place inserted {} frames", advance.seam);
    assert_eq!(clock.captured(), before + BLOCK as u64);
}

#[test]
fn a_loop_that_wraps_on_a_bar_line_inserts_nothing() {
    // A DAW looping four bars sends the playhead backwards every pass. That is a locate, and
    // it is detected as one — but four bars is a whole number of them, so the phase already
    // agrees and the right correction is none at all.
    let mut clock = capture_clock(SR, 120.0, Meter::four_four());
    let mut at = 16.0;
    for _ in 0..4 {
        at = roll(&mut clock, at, 375); // four bars, near enough
        at -= 16.0; // back to the top of the loop
    }
    assert_eq!(clock.seam_frames(), 0, "a bar-aligned loop spent {} frames", clock.seam_frames());
}

#[test]
fn a_loop_that_is_not_a_whole_number_of_bars_is_re_phased() {
    let mut clock = capture_clock(SR, 120.0, Meter::four_four());
    let at = roll(&mut clock, 0.0, 300);
    // Back three and a half bars: every pass lands the take half a bar out from the last.
    let wrapped = at - 14.0;
    let advance = clock.roll(&Transport::at(120.0, Meter::four_four(), wrapped), BLOCK);
    assert!(advance.seam > 0, "the half-bar wrap was not corrected");
    assert!(
        in_phase(head_phase(&clock, BLOCK), song_phase(wrapped)),
        "after the wrap the take is at {} of a bar and the song is at {}",
        head_phase(&clock, BLOCK),
        song_phase(wrapped)
    );
}

#[test]
fn the_first_press_moves_the_grid_rather_than_the_audio() {
    // Nothing is captured yet, so nothing is holding the graticule in place. Shifting it is
    // exact and costs no ring; inserting silence in front of an empty buffer would be neither.
    let mut clock = capture_clock(SR, 120.0, Meter::four_four());
    let start = 5.5; // a bar and three eighths in
    let advance = clock.roll(&Transport::at(120.0, Meter::four_four(), start), BLOCK);

    assert_eq!(advance.seam, 0, "the first press must not spend any ring");
    assert_eq!(clock.captured(), BLOCK as u64);
    assert!(
        in_phase(head_phase(&clock, BLOCK), song_phase(start)),
        "the take begins at {} of a bar and the song is at {}",
        head_phase(&clock, BLOCK),
        song_phase(start)
    );
}

#[test]
fn a_source_with_no_position_lands_the_restart_on_a_bar_line() {
    // MIDI clock from Live, or the page's own run button: nothing says where the playhead is.
    // The only reading available is that play was pressed on a downbeat, and taking it at
    // least keeps every restart on the same grid as every other.
    let mut clock = capture_clock(SR, 120.0, Meter::four_four());
    let rolling = Transport::rolling(120.0, Meter::four_four());
    for _ in 0..137 {
        clock.roll(&rolling, BLOCK);
    }
    assert!(head_phase(&clock, BLOCK) > 0.05, "the head should be mid-bar to make this a test");
    stop(&mut clock, 10);
    clock.roll(&rolling, BLOCK);
    assert!(
        in_phase(head_phase(&clock, BLOCK), 0.0),
        "the restart landed at {} of a bar rather than on the line",
        head_phase(&clock, BLOCK)
    );
}

#[test]
fn coming_back_from_an_export_is_a_splice_too() {
    // An offline render reports rolling the whole way and captures nothing, so the passage
    // after it is somewhere else entirely — the same discontinuity as a stop, and it has to
    // re-phase for the same reason.
    let mut clock = capture_clock(SR, 120.0, Meter::four_four());
    let rolling = Transport::rolling(120.0, Meter::four_four());
    for _ in 0..137 {
        clock.roll(&rolling, BLOCK);
    }
    let bounce = Transport { offline: true, ..rolling };
    for _ in 0..5000 {
        clock.roll(&bounce, BLOCK);
    }
    clock.roll(&rolling, BLOCK);
    assert!(
        in_phase(head_phase(&clock, BLOCK), 0.0),
        "the take resumed at {} of a bar after the export",
        head_phase(&clock, BLOCK)
    );
}

#[test]
fn a_jittery_position_report_does_not_spend_the_ring() {
    // A host whose reported position wanders by a few milliseconds either side of the truth
    // must not be read as locating every block. Nothing here is a real jump, so nothing may
    // be inserted after the first press.
    let mut clock = capture_clock(SR, 120.0, Meter::four_four());
    let wobble = [0.0, 0.02, -0.03, 0.05, -0.01, 0.04, -0.05, 0.01];
    let per_block = BLOCK as f64 * 120.0 / (60.0 * SR as f64);
    let mut quarters = 0.25; // and not on a bar line, so a spurious splice would show
    for i in 0..2000 {
        let reported = quarters + wobble[i % wobble.len()];
        clock.roll(&Transport::at(120.0, Meter::four_four(), reported), BLOCK);
        quarters += per_block;
    }
    assert_eq!(clock.seam_frames(), 0, "jitter cost {} frames", clock.seam_frames());
}

#[test]
fn an_empty_block_is_not_a_splice() {
    // A host handing over a zero-length block — a bypass, a suspended graph — has not said
    // anything about its transport. Reading it as a stop would cost a position-less source
    // most of a bar of ring for nothing.
    let mut clock = capture_clock(SR, 120.0, Meter::four_four());
    let rolling = Transport::rolling(120.0, Meter::four_four());
    for i in 0..400 {
        clock.roll(&rolling, if i % 7 == 0 { 0 } else { BLOCK });
    }
    assert_eq!(clock.seam_frames(), 0, "empty blocks cost {} frames", clock.seam_frames());
}

#[test]
fn splices_never_run_the_bars_backwards() {
    // The correction is always forwards, to the *next* aligned position rather than the
    // nearest one, because everything downstream — erosion, the lap, the wrap — rests on the
    // bar axis never decreasing.
    let mut clock = capture_clock(SR, 120.0, Meter::four_four());
    let mut previous = f64::NEG_INFINITY;
    let mut check = |clock: &CaptureClock<f64>| {
        let bars = clock.head_bars();
        assert!(bars >= previous, "bars went backwards: {bars} after {previous}");
        previous = bars;
    };
    // Twenty restarts at arbitrary, deliberately awkward positions, with meter and tempo
    // moving underneath them.
    let mut at = 0.0;
    for i in 0..20 {
        let meter = if i % 3 == 0 { Meter::new(7, 8) } else { Meter::four_four() };
        let bpm = 90.0 + (i as f64) * 3.7;
        at = 13.37 * (i as f64) + 0.618;
        let per_block = BLOCK as f64 * bpm / (60.0 * SR as f64);
        for _ in 0..(20 + i * 3) {
            clock.roll(&Transport { position: Some(at), ..Transport::rolling(bpm, meter) }, BLOCK);
            at += per_block;
            check(&clock);
        }
        stop(&mut clock, 3);
        check(&clock);
    }
    assert!(at > 0.0);
    assert!(clock.seam_frames() > 0, "twenty locates should have inserted something");
}

#[test]
fn a_held_tempo_does_not_grow_the_map() {
    let mut clock = capture_clock(SR, 120.0, Meter::four_four());
    let rolling = Transport::rolling(120.0, Meter::four_four());
    for _ in 0..5000 {
        clock.roll(&rolling, 128);
    }
    assert_eq!(clock.map().len(), 1);
}

// --------------------------------------------------------------------------------
// MIDI files
// --------------------------------------------------------------------------------

/// A reader that shares nothing with the writer, so that a shared misunderstanding cannot pass
/// both.
struct Reader<'a> {
    bytes: &'a [u8],
    at: usize,
}

#[derive(Debug, PartialEq)]
struct Read {
    tick: u32,
    bytes: Vec<u8>,
}

impl<'a> Reader<'a> {
    fn new(bytes: &'a [u8]) -> (u16, Reader<'a>) {
        assert_eq!(&bytes[0..4], b"MThd");
        assert_eq!(u32::from_be_bytes(bytes[4..8].try_into().unwrap()), 6);
        assert_eq!(u16::from_be_bytes(bytes[8..10].try_into().unwrap()), 0, "format 0");
        assert_eq!(u16::from_be_bytes(bytes[10..12].try_into().unwrap()), 1, "one track");
        let ppq = u16::from_be_bytes(bytes[12..14].try_into().unwrap());
        assert_eq!(&bytes[14..18], b"MTrk");
        let len = u32::from_be_bytes(bytes[18..22].try_into().unwrap()) as usize;
        assert_eq!(bytes.len(), 22 + len, "the track length must cover the rest of the file");
        (ppq, Reader { bytes: &bytes[22..], at: 0 })
    }

    fn varint(&mut self) -> u32 {
        let mut value = 0u32;
        loop {
            let byte = self.bytes[self.at];
            self.at += 1;
            value = (value << 7) | u32::from(byte & 0x7F);
            if byte & 0x80 == 0 {
                return value;
            }
        }
    }

    fn all(&mut self) -> Vec<Read> {
        let mut out = Vec::new();
        let mut tick = 0;
        while self.at < self.bytes.len() {
            tick += self.varint();
            let status = self.bytes[self.at];
            let start = self.at;
            let length = match status {
                0xFF => {
                    self.at += 2;
                    let len = self.varint() as usize;
                    self.at - start + len
                }
                s if s & 0xF0 == 0xC0 || s & 0xF0 == 0xD0 => 2,
                s if s & 0x80 != 0 => 3,
                _ => panic!("running status at {}: this writer must not emit it", self.at),
            };
            self.at = start + length;
            out.push(Read { tick, bytes: self.bytes[start..start + length].to_vec() });
        }
        out
    }
}

fn export(map: &TempoMap<f64>, clip: &Clip, sel: Selection, options: &SmfOptions) -> Vec<Read> {
    let bytes = write_clip(sel, map, clip, options);
    let (ppq, mut reader) = Reader::new(&bytes);
    assert_eq!(ppq, options.ppq);
    reader.all()
}

#[test]
fn variable_length_quantities_match_the_specification() {
    for (value, expected) in [
        (0x0000_0000u32, vec![0x00]),
        (0x0000_0040, vec![0x40]),
        (0x0000_007F, vec![0x7F]),
        (0x0000_0080, vec![0x81, 0x00]),
        (0x0000_2000, vec![0xC0, 0x00]),
        (0x0000_3FFF, vec![0xFF, 0x7F]),
        (0x0000_4000, vec![0x81, 0x80, 0x00]),
        (0x0010_0000, vec![0xC0, 0x80, 0x00]),
        (0x001F_FFFF, vec![0xFF, 0xFF, 0x7F]),
        (0x0020_0000, vec![0x81, 0x80, 0x80, 0x00]),
        (0x0FFF_FFFF, vec![0xFF, 0xFF, 0xFF, 0x7F]),
    ] {
        let mut out = Vec::new();
        write_varint(&mut out, value);
        assert_eq!(out, expected, "{value:#x}");
    }
}

#[test]
fn a_hundred_and_twenty_bpm_is_half_a_million_microseconds() {
    assert_eq!(tempo_meta(micros_per_quarter(120.0)), vec![0xFF, 0x51, 0x03, 0x07, 0xA1, 0x20]);
    assert_eq!(u32::from_be_bytes([0, 0x07, 0xA1, 0x20]), 500_000);
    // And the denominator really is a logarithm.
    assert_eq!(meter_meta(Meter::four_four()), vec![0xFF, 0x58, 0x04, 4, 2, 24, 8]);
    assert_eq!(meter_meta(Meter::new(6, 8)), vec![0xFF, 0x58, 0x04, 6, 3, 24, 8]);
    assert_eq!(meter_meta(Meter::new(3, 4)), vec![0xFF, 0x58, 0x04, 3, 2, 24, 8]);
}

#[test]
fn a_note_is_included_by_its_onset_and_cut_at_the_end() {
    let map = flat();
    let bar = |n: f64| map.frame_at_bars(n);
    let notes = [
        // Started before the selection: not in it, however far it rings.
        Note { start: bar(0.0), end: Some(bar(5.0)), channel: 0, key: 40, on_velocity: 100, off_velocity: 0 },
        // Squarely inside.
        Note { start: bar(4.5), end: Some(bar(4.75)), channel: 0, key: 60, on_velocity: 100, off_velocity: 0 },
        // Starts inside, rings past the end: cut.
        Note { start: bar(7.5), end: Some(bar(12.0)), channel: 0, key: 62, on_velocity: 90, off_velocity: 0 },
        // Still held when the buffer was read.
        Note { start: bar(6.0), end: None, channel: 0, key: 64, on_velocity: 80, off_velocity: 0 },
        // After the selection.
        Note { start: bar(9.0), end: Some(bar(9.5)), channel: 0, key: 67, on_velocity: 100, off_velocity: 0 },
    ];
    let clip = Clip { notes: &notes, ..Clip::default() };
    let sel = Selection { start: bar(4.0), end: bar(8.0) };
    let events = export(&map, &clip, sel, &SmfOptions::default());

    let keys: Vec<u8> = events
        .iter()
        .filter(|e| e.bytes[0] & 0xF0 == 0x90)
        .map(|e| e.bytes[1])
        .collect();
    assert_eq!(keys, vec![60, 64, 62], "only onsets inside the selection, in time order");

    // Four bars at 120 in 4/4 is sixteen quarters, so the file is 16 * 960 ticks long.
    let end_of_track = events.last().expect("a track ends");
    assert_eq!(end_of_track.bytes, vec![0xFF, 0x2F, 0x00]);
    assert_eq!(end_of_track.tick, 16 * 960);

    // Both the rung-past note and the held note stop exactly at the boundary.
    let offs: Vec<(u8, u32)> = events
        .iter()
        .filter(|e| e.bytes[0] & 0xF0 == 0x80)
        .map(|e| (e.bytes[1], e.tick))
        .collect();
    assert!(offs.contains(&(62, 16 * 960)), "the ringing note was not cut: {offs:?}");
    assert!(offs.contains(&(64, 16 * 960)), "the held note was not given an end: {offs:?}");
}

#[test]
fn let_ring_keeps_the_tail() {
    let map = flat();
    let bar = |n: f64| map.frame_at_bars(n);
    let notes = [Note {
        start: bar(7.5), end: Some(bar(12.0)), channel: 0, key: 62, on_velocity: 90, off_velocity: 0,
    }];
    let clip = Clip { notes: &notes, ..Clip::default() };
    let sel = Selection { start: bar(4.0), end: bar(8.0) };
    let options = SmfOptions { let_ring: true, ..SmfOptions::default() };
    let events = export(&map, &clip, sel, &options);
    let off = events.iter().find(|e| e.bytes[0] & 0xF0 == 0x80).expect("a note off");
    assert_eq!(off.tick, 32 * 960, "eight bars past the selection start");
    // And the track has to be long enough to contain it.
    assert_eq!(events.last().unwrap().tick, 32 * 960);
}

#[test]
fn controller_state_from_before_the_selection_is_emitted_at_tick_zero() {
    let map = flat();
    let bar = |n: f64| map.frame_at_bars(n);
    let controls = [
        ControlChange { frame: bar(0.5), channel: 0, controller: 74, value: 12 },
        ControlChange { frame: bar(1.0), channel: 0, controller: 64, value: 127 }, // sustain down
        ControlChange { frame: bar(2.0), channel: 0, controller: 74, value: 90 },  // superseded
        ControlChange { frame: bar(3.0), channel: 0, controller: 74, value: 33 },  // the one in force
        ControlChange { frame: bar(5.0), channel: 0, controller: 74, value: 100 }, // inside
    ];
    let bends = [
        PitchBend { frame: bar(1.5), channel: 0, value: 4096 },
        PitchBend { frame: bar(2.5), channel: 0, value: 10_000 },
    ];
    let notes = [Note {
        start: bar(4.5), end: Some(bar(5.5)), channel: 0, key: 60, on_velocity: 100, off_velocity: 0,
    }];
    let clip = Clip { notes: &notes, controls: &controls, bends: &bends };
    let sel = Selection { start: bar(4.0), end: bar(8.0) };
    let events = export(&map, &clip, sel, &SmfOptions::default());

    let at_zero: Vec<&Read> = events.iter().filter(|e| e.tick == 0).collect();
    assert!(
        at_zero.iter().any(|e| e.bytes == vec![0xB0, 74, 33]),
        "the cutoff in force at the boundary is missing: the clip would open wide"
    );
    assert!(
        at_zero.iter().any(|e| e.bytes == vec![0xB0, 64, 127]),
        "the sustain pedal was down and the clip has it up"
    );
    assert!(
        at_zero.iter().any(|e| e.bytes == vec![0xE0, 0x10, 0x4E]),
        "pitch bend was not restored: {at_zero:?}"
    );
    assert!(
        !at_zero.iter().any(|e| e.bytes == vec![0xB0, 74, 90]),
        "only the latest value per controller belongs in the snapshot"
    );

    // The snapshot has to precede the first note, or it changes the sound after the attack.
    let first_note = events.iter().position(|e| e.bytes[0] & 0xF0 == 0x90).unwrap();
    let last_snapshot = events.iter().rposition(|e| e.tick == 0 && e.bytes[0] == 0xB0).unwrap();
    assert!(last_snapshot < first_note);
}

#[test]
fn a_tempo_change_inside_the_selection_is_carried_into_the_file() {
    let mut map = tempo_map(SR, 120.0, Meter::four_four());
    let change = map.frame_at_bars(6.0);
    map.observe(change, 90.0, Meter::new(3, 4));
    let sel = Selection { start: map.frame_at_bars(4.0), end: map.frame_at_bars(8.0) };
    let events = export(&map, &Clip::default(), sel, &SmfOptions::default());

    let tempos: Vec<(u32, u32)> = events
        .iter()
        .filter(|e| e.bytes.starts_with(&[0xFF, 0x51]))
        .map(|e| {
            (e.tick, u32::from_be_bytes([0, e.bytes[3], e.bytes[4], e.bytes[5]]))
        })
        .collect();
    assert_eq!(
        tempos,
        vec![(0, 500_000), (2 * 4 * 960, 666_667)],
        "expected 120 at the top and 90 two bars in"
    );
    let meters: Vec<(u32, u8, u8)> = events
        .iter()
        .filter(|e| e.bytes.starts_with(&[0xFF, 0x58]))
        .map(|e| (e.tick, e.bytes[3], e.bytes[4]))
        .collect();
    assert_eq!(meters, vec![(0, 4, 2), (2 * 4 * 960, 3, 2)]);
}

#[test]
fn a_note_never_has_zero_length() {
    let map = flat();
    let bar = |n: f64| map.frame_at_bars(n);
    // A note lasting a handful of samples: far under one tick at 960 PPQ.
    let notes = [Note {
        start: bar(4.0) + 10, end: Some(bar(4.0) + 12), channel: 3, key: 60,
        on_velocity: 0, off_velocity: 0,
    }];
    let clip = Clip { notes: &notes, ..Clip::default() };
    let sel = Selection { start: bar(4.0), end: bar(8.0) };
    let events = export(&map, &clip, sel, &SmfOptions::default());
    let on = events.iter().find(|e| e.bytes[0] & 0xF0 == 0x90).expect("note on");
    let off = events.iter().find(|e| e.bytes[0] & 0xF0 == 0x80).expect("note off");
    assert!(off.tick > on.tick, "a note off must come after its note on");
    assert_eq!(on.bytes[0] & 0x0F, 3, "channel is preserved");
    assert_eq!(on.bytes[2], 1, "velocity zero would be read back as a note off");
}

#[test]
fn an_empty_selection_still_produces_a_valid_file() {
    let map = flat();
    let sel = Selection { start: map.frame_at_bars(4.0), end: map.frame_at_bars(8.0) };
    let events = export(&map, &Clip::default(), sel, &SmfOptions::default());
    assert_eq!(events.last().unwrap().bytes, vec![0xFF, 0x2F, 0x00]);
    assert_eq!(events.last().unwrap().tick, 16 * 960, "the clip keeps its length");
}

// --------------------------------------------------------------------------------
// The whole session
// --------------------------------------------------------------------------------

/// A session as a host drives it: blocks in, a selection, files out.
struct Core {
    producer: Producer,
    reader: RingReader,
    clock: CaptureClock<f64>,
    midi: MidiRing,
    session: Session,
    view: View,
    unit: Unit,
    width: u32,
}

const HOST_BLOCK: usize = 512;

fn transport(playing: bool, offline: bool) -> Transport<f64> {
    Transport { playing, offline, ..Transport::rolling(120.0, Meter::four_four()) }
}

impl Core {
    fn new(channels: u32) -> Core {
        let settings = Settings::new(SR, channels, 20, HOST_BLOCK as u32);
        let (producer, reader) = ring(settings.capacity, settings.channels, settings.sample_rate);
        Core {
            producer,
            reader,
            clock: capture_clock(settings.sample_rate, 120.0, Meter::four_four()),
            midi: MidiRing::new(1 << 14),
            session: Session::new(),
            view: View::new(16.0),
            unit: Unit::Auto,
            width: 1000,
        }
    }

    fn viewport(&self) -> Viewport<f64> {
        let head = self.session.head(self.clock.captured());
        resolve(&self.view, self.clock.map(), head, self.width)
    }

    fn unit_bars(&self) -> f64 {
        self.unit.bars(self.viewport().span_bars, f64::from(self.width))
    }

    fn set_unit(&mut self, bars: f64) {
        self.unit = Unit::of_bars(bars);
        self.view.home();
    }

    fn write(&mut self, planes: &[&[u32]], transport: &Transport<f64>) -> usize {
        let readings = readings(&self.clock, transport, HOST_BLOCK);
        let taken = capture(
            &mut self.producer,
            &mut self.clock,
            &mut self.session,
            transport,
            planes,
            HOST_BLOCK,
            &readings,
        );
        assert_eq!(self.producer.written(), self.clock.captured(), "one axis");
        if taken > 0 && !self.session.is_held() {
            let head = self.clock.captured();
            let first =
                window_edge(self.clock.map(), self.unit_bars(), head, self.view.window_bars);
            self.session.erode(first);
        }
        taken
    }

    /// Captures `blocks` blocks of a constant value, rolling at 120 BPM.
    fn capture(&mut self, blocks: usize, value: f32, playing: bool, offline: bool) {
        let samples = vec![value.to_bits(); HOST_BLOCK];
        for _ in 0..blocks {
            self.write(&[&samples, &samples], &transport(playing, offline));
        }
    }

    /// Captures `blocks` blocks rolling at 120 BPM, threading the song position along with them.
    /// Returns where the playhead ends up, in quarter notes.
    fn capture_from(&mut self, blocks: usize, value: f32, quarters: f64) -> f64 {
        let samples = vec![value.to_bits(); HOST_BLOCK];
        let mut at = quarters;
        let per_block = HOST_BLOCK as f64 * 120.0 / (60.0 * f64::from(SR));
        for _ in 0..blocks {
            self.write(&[&samples, &samples], &Transport::at(120.0, Meter::four_four(), at));
            at += per_block;
        }
        at
    }

    fn capture_midi(&mut self, offset: u32, status: u8, data1: u8, data2: u8) {
        let captured = self.clock.captured();
        capture_event(&mut self.midi, &self.session, captured, offset, status, data1, data2);
    }

    fn select_percent(&mut self, tenths: u32) {
        let head = self.session.head(self.clock.captured());
        let map = self.clock.map();
        let selection =
            percent_from_head(map, self.unit_bars(), head, self.view.window_bars, tenths);
        if selection.is_some() {
            self.session.select(selection);
        }
    }

    fn mark(&mut self) {
        self.session.mark(self.clock.captured(), self.reader.oldest(&self.producer));
    }

    fn select_from_marker(&mut self) -> bool {
        let head = self.session.head(self.clock.captured());
        let Some(at) = self.session.marker_before(head) else { return false };
        let selection = snap_range_upto(self.clock.map(), self.unit_bars(), at, head, head);
        if selection.is_some() {
            self.session.select(selection);
        }
        selection.is_some()
    }

    fn selection_state(&self) -> u32 {
        self.session.selection_state(&self.reader.shape(), self.reader.head(&self.producer)).code()
    }

    fn selection_bars(&self) -> f64 {
        let Some(selection) = self.session.selection() else { return 0.0 };
        let map = self.clock.map();
        map.bars_at(selection.end) - map.bars_at(selection.start)
    }

    fn stage(&self) -> Vec<u8> {
        let Some((selection, planes)) =
            selected_planes(&self.producer, &self.reader, &self.session)
        else {
            return vec![];
        };
        let views: Vec<&[u32]> = planes.iter().map(|p| p.as_slice()).collect();
        let map = self.clock.map();
        let quarters = map.quarters_at(selection.end) - map.quarters_at(selection.start);
        let meta = WavMeta {
            acid: Some(Acid {
                tempo: (map.bpm_at(selection.start) as f32).to_bits(),
                quarters: quarters.round().max(1.0) as u32,
                meter: map.meter_at(selection.start),
                root: None,
            }),
            bext: Some(capture_bext(SR, planes.len(), 0)),
        };
        waveroll::wav::write(&views, &WavSpec::new(SR, Depth::F32), &meta)
    }

    fn stage_midi(&self, let_ring: bool) -> Vec<u8> {
        let Some(selection) = self.session.selection() else { return vec![] };
        let staged = stage(&self.midi, selection, let_ring);
        if staged.is_empty() {
            return vec![];
        }
        let options = SmfOptions { let_ring, ..SmfOptions::default() };
        write_clip(selection, self.clock.map(), &staged.clip(), &options)
    }

    /// Blocks for one bar at 120 BPM: two seconds.
    fn blocks_per_bar() -> usize {
        (SR as usize * 2) / HOST_BLOCK
    }
}

#[test]
fn capture_follows_the_transport() {
    let mut core = Core::new(2);
    core.capture(20, 0.5, false, false);
    assert_eq!(core.clock.captured(), 0, "stopped means nothing is recorded");

    core.capture(20, 0.5, true, false);
    assert_eq!(core.clock.captured(), 20 * HOST_BLOCK as u64);
    assert!(core.clock.is_playing());

    // The bug that would silently replace a take with a bounce.
    core.capture(1000, 0.5, true, true);
    assert_eq!(
        core.clock.captured(),
        20 * HOST_BLOCK as u64,
        "an offline render must contribute nothing"
    );
}

#[test]
fn a_restart_elsewhere_in_the_song_puts_the_grid_back_on_the_music() {
    // Roll for a while, stop, which in almost every DAW sends the playhead back to the top, and
    // play again from somewhere else entirely. What the editor draws has to go on landing where
    // the music is.
    let mut core = Core::new(2);
    core.capture_from(Core::blocks_per_bar() * 5 + 7, 0.5, 0.0);
    core.capture(20, 0.0, false, false); // stopped

    let restart = 37.3; // bar ten and a third, nothing to do with where it stopped
    let blocks = Core::blocks_per_bar() * 4;
    let ended = core.capture_from(blocks, 0.5, restart);

    // The head is a fraction of a 16-bar window, so this is the head in absolute bars within the
    // lap.
    let phase = (core.viewport().head_fraction() * core.view.window_bars).rem_euclid(1.0);
    let expected = (ended / 4.0).rem_euclid(1.0);
    let off = (phase - expected).rem_euclid(1.0);
    assert!(
        off.min(1.0 - off) < 0.005,
        "the take sits at {phase} of a bar and the song is at {expected}"
    );
}

#[test]
fn a_selection_across_a_restart_is_still_the_length_it_says() {
    // A four-bar selection has to hold four bars of audio whatever happened in the middle of it,
    // or the loop does not loop.
    let mut core = Core::new(2);
    core.capture_from(Core::blocks_per_bar() * 3 + 11, 0.5, 0.0);
    core.capture(20, 0.0, false, false);
    core.capture_from(Core::blocks_per_bar() * 8, 0.5, 37.3);

    core.set_unit(1.0);
    core.select_percent(5); // half of sixteen bars
    assert_eq!(core.selection_state(), 3, "it should be ready to stage");
    assert!((core.selection_bars() - 8.0).abs() < 1e-6, "got {}", core.selection_bars());

    let bytes = core.stage();
    let data = find_chunk(&bytes, b"data").expect("a data chunk");
    // Eight bars of 4/4 at 120 BPM is sixteen seconds; stereo floats are eight bytes a frame.
    assert_eq!(
        data.len(),
        16 * SR as usize * 8,
        "a splice inside the selection changed how long it is"
    );
}

#[test]
fn a_mono_host_buffer_still_fills_a_stereo_core() {
    // A host may hand over fewer channels than the core was configured for. The ring duplicates
    // its last plane for exactly this case.
    let mut core = Core::new(2);
    let samples = vec![0.25f32.to_bits(); HOST_BLOCK];
    let taken = core.write(&[&samples], &transport(true, false));
    assert_eq!(taken, HOST_BLOCK, "a mono buffer must not silently capture nothing");
    assert_eq!(core.clock.captured(), HOST_BLOCK as u64);
    let mut right = vec![0; HOST_BLOCK];
    assert!(core.reader.read_into(&core.producer, 1, 0, &mut right));
    assert_eq!(right, samples);
}

#[test]
fn the_number_row_selects_whole_cells_and_stages_them() {
    let mut core = Core::new(2);
    // Two laps of a 16-bar window, so there is plenty behind the head.
    core.capture(Core::blocks_per_bar() * 40, 0.5, true, false);

    core.set_unit(1.0);
    core.select_percent(2); // the last 20% of sixteen bars
    assert!(core.session.selection().is_some());
    assert_eq!(core.selection_state(), 3, "it should be ready to stage");
    assert!(
        (core.selection_bars() - 3.0).abs() < 1e-6,
        "20% of sixteen bars is 3.2, which rounds to three whole bars, got {}",
        core.selection_bars()
    );

    let bytes = core.stage();
    assert!(bytes.len() > 44, "a WAV is more than a header");
    assert_eq!(&bytes[0..4], b"RIFF");
    assert_eq!(&bytes[8..12], b"WAVE");

    // Three bars of 4/4 at 120 BPM is six seconds; stereo floats are eight bytes a frame.
    let data = find_chunk(&bytes, b"data").expect("a data chunk");
    assert_eq!(data.len(), 6 * SR as usize * 8, "the audio is not the length the selection was");
}

#[test]
fn staging_refuses_a_selection_the_writer_has_overtaken() {
    let mut core = Core::new(1);
    core.capture(Core::blocks_per_bar() * 20, 0.5, true, false);
    core.set_unit(1.0);
    core.select_percent(5);
    assert!(!core.stage().is_empty(), "it stages while it is still there");

    // Hold, so the selection stops being trimmed, then run the writer far past it. A partly
    // overwritten read is a seam of old and new audio that looks entirely plausible.
    core.session.hold(true, core.clock.captured());
    core.capture(Core::blocks_per_bar() * 200, 0.9, true, false);
    assert_eq!(core.selection_state(), 2, "it should report itself overwritten");
    assert!(core.stage().is_empty(), "and refuse rather than hand over a seam");
}

#[test]
fn a_selection_erodes_as_the_head_reaches_it_rather_than_vanishing() {
    let mut core = Core::new(1);
    core.capture(Core::blocks_per_bar() * 20, 0.5, true, false);
    core.set_unit(1.0);
    core.select_percent(10); // the whole window
    let before = core.selection_bars();
    // Not necessarily sixteen. The head is almost never on a bar line, and both ends snap to whole
    // cells, so "everything" is the most whole bars that fit inside the window.
    assert!(
        (15.0..=16.0).contains(&before),
        "expected the most whole bars that fit in sixteen, got {before}"
    );

    // Four more bars: the oldest four should have been given up, not the whole selection.
    core.capture(Core::blocks_per_bar() * 4, 0.5, true, false);
    assert!(
        core.session.selection().is_some(),
        "it must not vanish because the head touched it"
    );
    assert!(
        (core.selection_bars() - (before - 4.0)).abs() < 1e-6,
        "expected {} bars left after giving up four, got {}",
        before - 4.0,
        core.selection_bars()
    );
}

#[test]
fn the_grid_ladder_walks_and_stops_at_both_ends() {
    let mut core = Core::new(1);
    // Down from anywhere reaches auto, which reports as zero, and stays there.
    for _ in 0..12 {
        core.unit.cycle(-1);
    }
    assert_eq!(core.unit.cycle(-1), 0.0, "auto is the bottom");
    // Up from auto reaches the finest rung and climbs to the coarsest.
    assert!((core.unit.cycle(1) - 1.0 / 32.0).abs() < 1e-9);
    for _ in 0..12 {
        core.unit.cycle(1);
    }
    assert_eq!(core.unit.cycle(1), 4.0, "four bars is the top");
}

#[test]
fn midi_is_captured_on_the_same_axis_as_the_audio_and_exports() {
    let mut core = Core::new(1);
    let samples = vec![0.1f32.to_bits(); HOST_BLOCK];

    // A note every other block, over several bars.
    let blocks = Core::blocks_per_bar() * 8;
    for i in 0..blocks {
        core.write(&[&samples], &transport(true, false));
        if i % 8 == 0 {
            core.capture_midi(0, 0x90, 60, 100);
        } else if i % 8 == 4 {
            core.capture_midi(0, 0x80, 60, 0);
        }
    }

    core.set_unit(1.0);
    core.select_percent(3);
    let bytes = core.stage_midi(false);
    assert!(bytes.len() > 22, "an SMF is more than a header");
    assert_eq!(&bytes[0..4], b"MThd");
    assert_eq!(&bytes[14..18], b"MTrk");
    assert_eq!(
        u32::from_be_bytes(bytes[18..22].try_into().expect("four bytes")) as usize,
        bytes.len() - 22,
        "the track length must cover the rest of the file"
    );
}

#[test]
fn midi_arriving_for_a_refused_block_is_refused_too() {
    // Otherwise a clip contains notes from a passage whose audio was never recorded.
    let mut core = Core::new(1);
    let samples = vec![0; HOST_BLOCK];
    core.write(&[&samples], &transport(false, false));
    core.capture_midi(0, 0x90, 60, 100);

    core.capture(Core::blocks_per_bar() * 8, 0.1, true, false);
    core.set_unit(1.0);
    core.select_percent(10);
    assert!(core.stage_midi(false).is_empty(), "the lane should be empty over this selection");
}

#[test]
fn hold_freezes_the_head_the_editor_reads() {
    let mut core = Core::new(1);
    core.capture(Core::blocks_per_bar() * 4, 0.5, true, false);
    core.session.hold(true, core.clock.captured());
    let held = (core.viewport().head_fraction(), core.clock.captured());
    assert!(core.session.is_held());

    core.capture(Core::blocks_per_bar() * 4, 0.5, true, false);
    assert_eq!(core.viewport().head_fraction(), held.0, "the picture must stop moving");
    assert!(core.clock.captured() > held.1, "while capture carries on underneath");

    core.session.hold(false, core.clock.captured());
    assert!(core.viewport().head_fraction() != held.0, "and resumes on release");
}

#[test]
fn markers_select_backwards_from_the_head() {
    let mut core = Core::new(1);
    core.capture(Core::blocks_per_bar() * 4, 0.5, true, false);
    assert!(!core.select_from_marker(), "there is no marker yet");

    core.mark();
    assert_eq!(core.session.markers().len(), 1);
    core.capture(Core::blocks_per_bar() * 3, 0.5, true, false);

    core.set_unit(1.0);
    assert!(core.select_from_marker(), "three whole bars have passed since the mark");
    assert!(
        (core.selection_bars() - 3.0).abs() < 1e-6,
        "expected the three bars since the mark, got {}",
        core.selection_bars()
    );
}

/// Walks a RIFF file for one chunk. Deliberately naive: if the writer's padding is wrong this
/// desynchronises and the caller fails, which is the point.
fn find_chunk<'a>(wav: &'a [u8], id: &[u8; 4]) -> Option<&'a [u8]> {
    let mut at = 12;
    while at + 8 <= wav.len() {
        let size = u32::from_le_bytes(wav[at + 4..at + 8].try_into().ok()?) as usize;
        if &wav[at..at + 4] == id {
            return wav.get(at + 8..at + 8 + size);
        }
        at += 8 + size + (size % 2);
    }
    None
}

#[test]
fn the_ladder_is_the_ladder() {
    let rungs: Vec<f64> = (0..RUNGS).map(rung_bars).collect();
    assert_eq!(rungs, LADDER);
    assert_eq!(rung32(0), 1);
    assert_eq!(rung32(7), 128);
}

#[test]
fn a_selection_says_what_became_of_it() {
    let shape = Shape { capacity: 1 << 16, channels: 1, sample_rate: SR };
    let mut session = Session::new();
    assert_eq!(session.selection_state(&shape, 10), SelectionState::Empty);
    session.select(Some(Selection { start: 100, end: 200 }));
    assert_eq!(session.selection_state(&shape, 150), SelectionState::Pending);
    assert_eq!(session.selection_state(&shape, 200), SelectionState::Ready);
    assert_eq!(session.selection_state(&shape, 200 + (1 << 16)), SelectionState::Overwritten);
    assert_eq!(session.to_stage(&shape, 200), Some(Selection { start: 100, end: 200 }));
    assert_eq!(session.to_stage(&shape, 150), None);
    session.select(Some(Selection { start: 100, end: 100 }));
    assert_eq!(session.to_stage(&shape, 200), None, "nothing to stage in an empty selection");
}

#[test]
fn an_event_lies_on_the_sample_it_came_with() {
    let mut core = Core::new(1);
    core.capture_from(Core::blocks_per_bar() + 7, 0.5, 0.0);
    core.capture(3, 0.0, false, false);
    core.capture_midi(0, 0x90, 59, 100);
    assert_eq!(core.midi.written(), 0, "a refused block takes no events");

    // A restart somewhere else: dead frames go in front of the block.
    let before = core.clock.captured();
    let ramp: Vec<u32> = (1..=HOST_BLOCK as u32).collect();
    core.write(&[&ramp], &Transport::at(120.0, Meter::four_four(), 37.3));
    let seam = core.clock.captured() - before - HOST_BLOCK as u64;
    assert!(seam > 0);
    core.capture_midi(100, 0x90, 60, 100);
    core.capture_midi(9999, 0x80, 60, 0);
    core.capture_midi(9999, 0xF8, 0, 0);
    let events = core.midi.iter();
    assert_eq!(events.len(), 2, "the clock is not captured");
    assert_eq!(events[0].frame, before + seam + 100);
    assert_eq!(events[1].frame, core.clock.captured() - 1);
    assert_eq!(core.midi.last(), Some(events[1]));
    let mut sample = [0];
    assert!(core.reader.read_into(&core.producer, 0, events[0].frame, &mut sample));
    assert_eq!(sample, [101]);
    let mut dead = vec![9; seam.min(1000) as usize];
    assert!(core.reader.read_into(&core.producer, 0, before, &mut dead));
    assert!(dead.iter().all(|s| *s == 0), "the seam is silent");
}

#[test]
fn silence_longer_than_the_ring_fills_it() {
    let (mut producer, reader) = ring(16, 2, SR);
    producer.write(&[&[7; 16]], 16);
    producer.write_silence(1000);
    assert_eq!(producer.written(), 1016);
    let mut out = [9; 16];
    assert!(reader.read_into(&producer, 1, 1000, &mut out));
    assert_eq!(out, [0; 16]);
    producer.record(&[&[1, 2, 3]], 2, 3);
    let mut out = [9; 6];
    assert!(reader.read_into(&producer, 0, 1015, &mut out));
    assert_eq!(out, [0, 0, 0, 1, 2, 3]);
}

#[test]
fn a_jump_of_more_than_eight_ticks_counts_as_one() {
    let mut pll: ClockPll<f64> = ClockPll::new(SR, 240.0);
    for at in [0, 500, 1000, 1500] {
        pll.feed(ClockMessage::Tick, at, 1, true);
    }
    pll.feed(ClockMessage::Tick, 5500, 8, true);
    assert_eq!(pll.window().last(), Some(&(12, 5500)), "eight ticks are believed");
    pll.feed(ClockMessage::Tick, 11_500, 12, true);
    assert_eq!(pll.window().last(), Some(&(13, 11_500)), "twelve are not");
    pll.feed(ClockMessage::Tick, 12_500, 2, false);
    assert_eq!(pll.window().last(), Some(&(14, 12_500)), "nor is a ratio that is not close");
    assert_eq!(pll.rejected(), 0);
}

#[test]
fn an_empty_block_leaves_the_events_of_the_last_one_in_place() {
    let mut core = Core::new(1);
    core.capture(1, 0.5, true, false);
    let nothing = Transport { offline: true, ..transport(true, false) };
    let readings = readings(&core.clock, &nothing, 0);
    let taken = capture(
        &mut core.producer,
        &mut core.clock,
        &mut core.session,
        &nothing,
        &[&[]],
        0,
        &readings,
    );
    assert_eq!(taken, 0);
    assert_eq!(core.clock.captured(), HOST_BLOCK as u64);
    assert_eq!(core.clock.offline_blocks(), 0);
    assert!(core.clock.is_capturing());
    core.capture_midi(3, 0x90, 60, 100);
    assert_eq!(core.midi.last().map(|event| event.frame), Some(3));
}

#[test]
fn a_change_holds_from_its_frame_and_music_runs_on_through_it() {
    let mut map = flat();
    let (bars, quarters) = (map.bars_at(123_456), map.quarters_at(123_456));
    map.observe(123_456, 90.0, Meter::new(3, 4));
    assert_eq!(map.len(), 2);
    assert_eq!((map.bars_at(123_456), map.quarters_at(123_456)), (bars, quarters));
    assert_eq!((map.bpm_at(123_455), map.bpm_at(123_456)), (120.0, 90.0));
    assert_eq!(map.meter_at(1 << 40), Meter::new(3, 4));
    map.observe(123_456, 60.0, Meter::new(3, 4));
    assert_eq!(map.len(), 2, "the later of two changes on one frame wins");
    assert_eq!((map.bars_at(123_456), map.bpm_at(123_456)), (bars, 60.0));
}

#[test]
fn a_clip_longer_than_one_quantity_still_reads_back() {
    let map = flat();
    let note = |start: u64| Note {
        start,
        end: Some(start + 10),
        channel: 0,
        key: 60,
        on_velocity: 1,
        off_velocity: 0,
    };
    let starts = [0x0A00_0000u64, 0x1400_0000, 0x1E00_0000];
    let notes = starts.map(note);
    let clip = Clip { notes: &notes, ..Clip::default() };
    let within = Selection { start: 0, end: 0x2000_0000 };
    let bytes = waveroll::smf::write(
        within,
        &map,
        &clip,
        &SmfOptions::default(),
        |frame: u64| frame as u32,
        micros_per_quarter,
    );
    let read = Reader::new(&bytes).1.all();
    let strikes: Vec<u64> =
        read.iter().filter(|e| e.bytes[0] == 0x90).map(|e| u64::from(e.tick)).collect();
    assert_eq!(strikes, starts);
    assert_eq!(read.last().map(|e| e.tick), Some(0x2000_0000));
}
