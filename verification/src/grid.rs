//! Quantised selection: the core interaction.
//!
//! Everything works in musical time and converts to frames only on the way out. A cell is a
//! different number of samples on either side of a tempo change, so what is snapped are cells of
//! the grid, counted from the start of the capture, never frames. Which cell a frame lies in and
//! where a cell begins is asked of the caller's tempo map.
use crate::ask::ask;
use vstd::prelude::*;

verus! {

/// A selected span of capture time, as absolute frame indices, half-open.
///
/// Frames rather than screen coordinates, so that a selection survives the write head sweeping
/// through it and can be asked, of the ring, whether it still exists.
#[derive(Clone, Copy, Debug, PartialEq, Eq, Structural)]
pub struct Selection {
    pub start: u64,
    pub end: u64,
}

impl Selection {
    pub fn frames(&self) -> (frames: u64)
        requires
            self.start <= self.end,
        ensures
            frames == self.end - self.start,
    {
        self.end - self.start
    }

    pub fn is_empty(&self) -> (empty: bool)
        ensures
            empty == (self.end <= self.start),
    {
        self.end <= self.start
    }
}

/// A click with no drag: the one cell containing `frame`.
///
/// `cell` says which cell a frame lies in and `edge` where a cell begins. The pointer is always
/// inside the result, which is the property that makes a single click feel like it selected the
/// thing under it rather than the thing beside it.
pub fn cell_at<C: Fn(u64) -> i64, E: Fn(i64) -> u64>(cell: C, edge: E, frame: u64) -> (selection:
    Selection)
    requires
        crate::ask::consistent(cell),
        crate::ask::consistent(edge),
        forall|c: i64| #[trigger] cell.ensures((frame,), c) ==> c < i64::MAX,
    ensures
        selection == (Selection {
            start: crate::ask::answer(edge, crate::ask::answer(cell, frame)),
            end: crate::ask::answer(edge, (crate::ask::answer(cell, frame) + 1) as i64),
        }),
        crate::ask::answered(cell, frame),
        crate::ask::answered(edge, crate::ask::answer(cell, frame)),
        crate::ask::answered(edge, (crate::ask::answer(cell, frame) + 1) as i64),
{
    let index: i64 = ask(&cell, frame);
    Selection { start: ask(&edge, index), end: ask(&edge, index + 1) }
}

/// The cells of a drag: the one that it starts in up to the one that it ends in, at least one.
pub open spec fn dragged(first: i64, last: i64) -> (i64, i64) {
    if last <= first {
        (first, (first + 1) as i64)
    } else {
        (first, last)
    }
}

/// The earlier of the two ends of a drag.
pub open spec fn earlier(a: u64, b: u64) -> u64 {
    if a <= b {
        a
    } else {
        b
    }
}

/// The later of the two ends of a drag.
pub open spec fn later(a: u64, b: u64) -> u64 {
    if a <= b {
        b
    } else {
        a
    }
}

/// A drag: start snaps down, end snaps up, minimum one cell.
///
/// `below` says which cell a frame lies in, `above` which cell begins at or after it, and `edge`
/// where a cell begins. The endpoints are sorted first, so dragging right to left produces the
/// same span as dragging left to right rather than an inverted one.
pub fn snap_range<B: Fn(u64) -> i64, A: Fn(u64) -> i64, E: Fn(i64) -> u64>(
    below: B,
    above: A,
    edge: E,
    a: u64,
    b: u64,
) -> (selection: Selection)
    requires
        crate::ask::consistent(below),
        crate::ask::consistent(above),
        crate::ask::consistent(edge),
        forall|c: i64| #[trigger] below.ensures((earlier(a, b),), c) ==> c < i64::MAX,
    ensures
        selection == snapped(below, above, edge, a, b),
        crate::ask::answered(below, earlier(a, b)),
        crate::ask::answered(above, later(a, b)),
        ({
            let (first, last) = dragged(
                crate::ask::answer(below, earlier(a, b)),
                crate::ask::answer(above, later(a, b)),
            );
            crate::ask::answered(edge, first) && crate::ask::answered(edge, last)
        }),
{
    let (low, high) = if a <= b {
        (a, b)
    } else {
        (b, a)
    };
    assert(low == earlier(a, b));
    let first: i64 = ask(&below, low);
    let mut last: i64 = ask(&above, high);
    // A drag that never left one cell, and a drag whose endpoints landed exactly on the same grid
    // line, both arrive here as a zero-width span. Neither can be what was meant.
    if last <= first {
        last = first + 1;
    }
    Selection { start: ask(&edge, first), end: ask(&edge, last) }
}

/// What a drag between two frames selects.
pub open spec fn snapped<B: Fn(u64) -> i64, A: Fn(u64) -> i64, E: Fn(i64) -> u64>(
    below: B,
    above: A,
    edge: E,
    a: u64,
    b: u64,
) -> Selection {
    let (first, last) = dragged(
        crate::ask::answer(below, earlier(a, b)),
        crate::ask::answer(above, later(a, b)),
    );
    Selection { start: crate::ask::answer(edge, first), end: crate::ask::answer(edge, last) }
}

/// Like [`snap_range`], but never reaching past `limit`.
///
/// Snapping the end up is right for a drag, but at the write head it selects a cell that the audio
/// has not reached yet. Where the intent is "the material between here and now", the end walks
/// back to the last complete cell instead. `None` where not even one whole cell has finished.
pub fn snap_range_upto<B: Fn(u64) -> i64, E: Fn(i64) -> u64>(
    below: B,
    edge: E,
    a: u64,
    b: u64,
    limit: u64,
) -> (selection: Option<Selection>)
    requires
        crate::ask::consistent(below),
        crate::ask::consistent(edge),
    ensures
        selection == snapped_upto(below, edge, a, b, limit),
        crate::ask::answered(below, earlier(a, b)),
        crate::ask::answered(below, earlier(later(a, b), limit)),
        selection is Some ==> crate::ask::answered(
            edge,
            crate::ask::answer(below, earlier(a, b)),
        ) && crate::ask::answered(
            edge,
            crate::ask::answer(below, earlier(later(a, b), limit)),
        ),
{
    let (low, high) = if a <= b {
        (a, b)
    } else {
        (b, a)
    };
    let first: i64 = ask(&below, low);
    let last: i64 = ask(
        &below,
        if high <= limit {
            high
        } else {
            limit
        },
    );
    if last <= first {
        return None;
    }
    Some(Selection { start: ask(&edge, first), end: ask(&edge, last) })
}

/// The whole cells between two frames, as far as `limit` goes.
pub open spec fn snapped_upto<B: Fn(u64) -> i64, E: Fn(i64) -> u64>(
    below: B,
    edge: E,
    a: u64,
    b: u64,
    limit: u64,
) -> Option<Selection> {
    let first = crate::ask::answer(below, earlier(a, b));
    let last = crate::ask::answer(below, earlier(later(a, b), limit));
    if last <= first {
        None
    } else {
        Some(Selection { start: crate::ask::answer(edge, first), end: crate::ask::answer(edge, last) })
    }
}

/// How many tenths a key of the number row asks for.
pub open spec fn tenths_of(key: u32) -> u32 {
    if key < 1 {
        1
    } else if key > 10 {
        10
    } else {
        key
    }
}

/// The cells that the number row selects: `wanted` of them, at least one, up to the last complete
/// one before the head, but none from before the window.
pub open spec fn recent(complete: i64, wanted: i64, oldest: i64) -> Option<(int, int)> {
    let count = if wanted < 1 {
        1
    } else {
        wanted as int
    };
    let first = if complete - count > oldest {
        complete - count
    } else {
        oldest as int
    };
    if complete <= first {
        None
    } else {
        Some((first, complete as int))
    }
}

/// The number row: the most recent tenths of the window, as a whole number of cells.
///
/// Both ends snap: ending exactly at the write head would give lengths that do not loop. `cells`
/// says how many cells a number of tenths of the window comes to; `complete` is the first cell that
/// is not complete at the head and `oldest` the first one that lies wholly inside the window. Keys
/// run from one to ten, and others are clamped. `None` when not one whole cell has been captured.
pub fn percent_from_head<W: Fn(u32) -> i64, E: Fn(i64) -> u64>(
    cells: W,
    edge: E,
    complete: i64,
    oldest: i64,
    key: u32,
) -> (selection: Option<Selection>)
    requires
        crate::ask::consistent(cells),
        crate::ask::consistent(edge),
        oldest >= 0,
    ensures
        selection == match recent(complete, crate::ask::answer(cells, tenths_of(key)), oldest) {
            Some((first, last)) => Some(
                Selection {
                    start: crate::ask::answer(edge, first as i64),
                    end: crate::ask::answer(edge, last as i64),
                },
            ),
            None => None,
        },
        crate::ask::answered(cells, tenths_of(key)),
        recent(complete, crate::ask::answer(cells, tenths_of(key)), oldest) matches Some(
            (first, last),
        ) ==> crate::ask::answered(edge, first as i64) && crate::ask::answered(edge, last as i64),
{
    let tenths: u32 = if key < 1 {
        1
    } else if key > 10 {
        10
    } else {
        key
    };
    let wanted: i64 = ask(&cells, tenths);
    let count: i64 = if wanted < 1 {
        1
    } else {
        wanted
    };
    if complete <= oldest {
        return None;
    }
    let first: i64 = if complete - oldest > count {
        complete - count
    } else {
        oldest
    };
    Some(Selection { start: ask(&edge, first), end: ask(&edge, complete) })
}

/// The rungs of the unit ladder: 1/32, 1/16, 1/8, 1/4, 1/2, 1, 2 and 4 bars.
pub const RUNGS: usize = 8;

/// A rung in thirty-seconds of a bar. Each is twice the one below it.
pub open spec fn rung32_of(rung: nat) -> nat {
    vstd::arithmetic::power2::pow2(rung)
}

pub fn rung32(rung: usize) -> (unit: u32)
    requires
        rung < RUNGS,
    ensures
        unit == rung32_of(rung as nat),
{
    proof {
        vstd::arithmetic::power2::lemma2_to64();
    }
    match rung {
        0 => 1,
        1 => 2,
        2 => 4,
        3 => 8,
        4 => 16,
        5 => 32,
        6 => 64,
        _ => 128,
    }
}

/// The rung with the smallest error, the finest of those, and that error. One whose error is not
/// smaller than `farthest` is never chosen; where there is no other, it is the finest rung.
pub open spec fn closest_of<N>(
    errors: Seq<N>,
    farthest: N,
    less: spec_fn(N, N) -> bool,
) -> (int, N)
    decreases errors.len(),
{
    if errors.len() == 0 {
        (0, farthest)
    } else {
        let (best, error) = closest_of(errors.drop_last(), farthest, less);
        if less(errors.last(), error) {
            (errors.len() - 1, errors.last())
        } else {
            (best, error)
        }
    }
}

/// How `less` answers.
pub open spec fn order_of<N, L: Fn((N, N)) -> bool>(less: L) -> spec_fn(N, N) -> bool {
    |a: N, b: N| crate::ask::answer(less, (a, b))
}

/// What rung `i` is compared by: its error, and the smallest one before it.
pub open spec fn compared<N>(
    errors: Seq<N>,
    farthest: N,
    less: spec_fn(N, N) -> bool,
    i: int,
) -> (N, N) {
    (errors[i], closest_of(errors.take(i), farthest, less).1)
}

/// The rung to use, from how far each of them is from what is wanted. `less` compares errors, and
/// `farthest` is an error that none is expected to reach.
pub fn closest_rung<N: Copy, L: Fn((N, N)) -> bool>(errors: &Vec<N>, farthest: N, less: L) -> (rung:
    usize)
    requires
        crate::ask::consistent(less),
    ensures
        rung == closest_of(errors@, farthest, order_of(less)).0,
        errors@.len() > 0 ==> rung < errors@.len(),
        forall|i: int|
            0 <= i < errors@.len() ==> crate::ask::answered(
                less,
                #[trigger] compared(errors@, farthest, order_of(less), i),
            ),
{
    let mut best: usize = 0;
    let mut error: N = farthest;
    let mut rung: usize = 0;
    assert(errors@.take(0) =~= Seq::empty());
    while rung < errors.len()
        invariant
            rung <= errors@.len(),
            crate::ask::consistent(less),
            (best as int, error) == closest_of(errors@.take(rung as int), farthest, order_of(less)),
            rung > 0 ==> best < rung,
            rung == 0 ==> best == 0,
            forall|i: int|
                0 <= i < rung ==> crate::ask::answered(
                    less,
                    #[trigger] compared(errors@, farthest, order_of(less), i),
                ),
        decreases errors@.len() - rung,
    {
        assert(errors@.take(rung + 1).drop_last() =~= errors@.take(rung as int));
        if ask(&less, (errors[rung], error)) {
            best = rung;
            error = errors[rung];
        }
        rung = rung + 1;
    }
    assert(errors@.take(rung as int) =~= errors@);
    best
}

/// `less` orders errors strictly, and what is not less either way counts as the same.
pub open spec fn orders<N>(less: spec_fn(N, N) -> bool) -> bool {
    &&& forall|a: N| !#[trigger] less(a, a)
    &&& forall|a: N, b: N, c: N|
        #[trigger] less(a, b) && #[trigger] less(b, c) ==> less(a, c)
    &&& forall|a: N, b: N, c: N|
        !#[trigger] less(a, b) && !#[trigger] less(b, c) ==> !less(a, c)
}

/// The unit that is chosen is always on the ladder, no other rung is closer to what is wanted, and
/// every finer one is farther from it.
pub proof fn law_the_closest_rung_is_chosen<N>(
    errors: Seq<N>,
    farthest: N,
    less: spec_fn(N, N) -> bool,
)
    requires
        errors.len() > 0,
        orders(less),
        forall|i: int| 0 <= i < errors.len() ==> less(#[trigger] errors[i], farthest),
    ensures
        ({
            let (best, error) = closest_of(errors, farthest, less);
            &&& 0 <= best < errors.len()
            &&& error == errors[best]
            &&& forall|i: int|
                0 <= i < errors.len() ==> !less(#[trigger] errors[i], errors[best])
            &&& forall|i: int| 0 <= i < best ==> less(errors[best], #[trigger] errors[i])
        }),
    decreases errors.len(),
{
    let earlier = errors.drop_last();
    let last = errors.last();
    if earlier.len() == 0 {
        assert(closest_of(earlier, farthest, less) == (0int, farthest));
        assert(errors[0] == last);
    } else {
        assert forall|i: int| 0 <= i < earlier.len() implies less(
            #[trigger] earlier[i],
            farthest,
        ) by {
            assert(earlier[i] == errors[i]);
        }
        law_the_closest_rung_is_chosen(earlier, farthest, less);
        let (best, error) = closest_of(earlier, farthest, less);
        assert(errors[best] == earlier[best]);
        if less(last, error) {
            assert forall|i: int| 0 <= i < errors.len() implies !less(#[trigger] errors[i], last)
                && (i < errors.len() - 1 ==> less(last, errors[i])) by {
                if i < earlier.len() {
                    assert(earlier[i] == errors[i]);
                    assert(!less(earlier[i], error));
                    if less(earlier[i], last) {
                        assert(less(earlier[i], error));
                    }
                    if !less(last, earlier[i]) {
                        assert(!less(last, error));
                    }
                }
            }
        } else {
            assert forall|i: int| 0 <= i < errors.len() implies !less(#[trigger] errors[i], error) by {
                if i < earlier.len() {
                    assert(earlier[i] == errors[i]);
                }
            }
            assert forall|i: int| 0 <= i < best implies less(error, #[trigger] errors[i]) by {
                assert(earlier[i] == errors[i]);
            }
        }
    }
}

/// Where a setting stands on the walk: auto is the bottom, the rungs follow, finest first.
pub open spec fn position_of(rung: Option<usize>) -> int {
    match rung {
        None => 0,
        Some(rung) => rung + 1,
    }
}

/// The setting at a position of the walk, which stops at both ends.
pub open spec fn setting_at(position: int) -> Option<usize> {
    if position <= 0 {
        None
    } else if position > RUNGS {
        Some((RUNGS - 1) as usize)
    } else {
        Some((position - 1) as usize)
    }
}

/// Walks the quantise setting `step` places up the ladder, or down where it is negative. `None` is
/// auto, the bottom.
pub fn cycle_unit(rung: Option<usize>, step: i32) -> (next: Option<usize>)
    requires
        rung matches Some(rung) ==> rung < RUNGS,
    ensures
        next == setting_at(position_of(rung) + step),
        next matches Some(rung) ==> rung < RUNGS,
{
    let at: i64 = match rung {
        None => 0,
        Some(rung) => rung as i64 + 1,
    };
    let to: i64 = at + step as i64;
    if to <= 0 {
        None
    } else if to > 8 {
        Some(7)
    } else {
        Some((to - 1) as usize)
    }
}

/// How prominent a grid line is. The renderer picks colours; this only says what the line means.
#[derive(Clone, Copy, Debug, PartialEq, Eq, Structural)]
pub enum Rule {
    /// A lap boundary, where the display wraps.
    Lap,
    /// A bar line.
    Bar,
    /// A sub-bar cell boundary at the current quantise unit.
    Cell,
}

/// One vertical line, positioned as a fraction of the canvas width.
#[derive(Clone, Copy, Debug, PartialEq)]
pub struct Ruling<N> {
    pub fraction: N,
    pub rule: Rule,
}

/// The most lines that will be emitted before the sub-bar ones are dropped. Bar lines survive the
/// cull, because losing those loses the reading of the picture.
pub const MAX_RULINGS: usize = 2048;

/// Whether sub-bar lines are drawn at all. They are dropped wholesale rather than thinned, so that
/// the grid never shows an irregular subset of a regular thing.
pub fn with_cells(finer_than_a_bar: bool, cells: usize) -> (shown: bool)
    ensures
        shown == (finer_than_a_bar && cells <= MAX_RULINGS),
{
    finer_than_a_bar && cells <= MAX_RULINGS
}

/// A candidate line: where it is, whether that is on the canvas, and what it coincides with.
#[derive(Clone, Copy, Debug)]
pub struct Line<N> {
    pub fraction: N,
    pub visible: bool,
    pub on_lap: bool,
    pub on_bar: bool,
}

/// What a line means: a lap boundary outranks a bar line, and that a cell boundary.
pub open spec fn rule_of<N>(line: Line<N>) -> Rule {
    if line.on_lap {
        Rule::Lap
    } else if line.on_bar {
        Rule::Bar
    } else {
        Rule::Cell
    }
}

/// The visible lines, in order.
pub open spec fn ruled<N>(lines: Seq<Line<N>>) -> Seq<Ruling<N>>
    decreases lines.len(),
{
    if lines.len() == 0 {
        Seq::empty()
    } else {
        let earlier = ruled(lines.drop_last());
        let last = lines.last();
        if last.visible {
            earlier.push(Ruling { fraction: last.fraction, rule: rule_of(last) })
        } else {
            earlier
        }
    }
}

/// Every grid line that is visible, left to right.
pub fn rulings<N: Copy>(lines: &Vec<Line<N>>) -> (out: Vec<Ruling<N>>)
    ensures
        out@ == ruled(lines@),
{
    let mut out: Vec<Ruling<N>> = Vec::new();
    let mut i: usize = 0;
    assert(lines@.take(0) =~= Seq::empty());
    while i < lines.len()
        invariant
            i <= lines@.len(),
            out@ == ruled(lines@.take(i as int)),
        decreases lines@.len() - i,
    {
        let line = lines[i];
        assert(lines@.take(i + 1).drop_last() =~= lines@.take(i as int));
        if line.visible {
            let rule = if line.on_lap {
                Rule::Lap
            } else if line.on_bar {
                Rule::Bar
            } else {
                Rule::Cell
            };
            out.push(Ruling { fraction: line.fraction, rule });
        }
        i = i + 1;
    }
    assert(lines@.take(i as int) =~= lines@);
    out
}

/// Dragging backwards is the same as dragging forwards.
pub proof fn law_a_drag_has_no_direction<
    B: Fn(u64) -> i64,
    A: Fn(u64) -> i64,
    E: Fn(i64) -> u64,
>(below: B, above: A, edge: E, limit: u64, a: u64, b: u64)
    ensures
        snapped(below, above, edge, a, b) == snapped(below, above, edge, b, a),
        snapped_upto(below, edge, a, b, limit) == snapped_upto(below, edge, b, a, limit),
{
}

/// A drag is at least one cell, and never inverts: where later cells of it begin later, its end
/// comes after its start.
pub proof fn law_a_drag_selects_at_least_a_cell<
    B: Fn(u64) -> i64,
    A: Fn(u64) -> i64,
    E: Fn(i64) -> u64,
>(below: B, above: A, edge: E, a: u64, b: u64)
    requires
        crate::ask::answer(below, earlier(a, b)) < i64::MAX,
        ({
            let (first, last) = dragged(
                crate::ask::answer(below, earlier(a, b)),
                crate::ask::answer(above, later(a, b)),
            );
            forall|c: i64, d: i64|
                first <= c < d <= last ==> #[trigger] crate::ask::answer(edge, c)
                    < #[trigger] crate::ask::answer(edge, d)
        }),
    ensures
        snapped(below, above, edge, a, b).start < snapped(below, above, edge, a, b).end,
{
    let (first, last) = dragged(
        crate::ask::answer(below, earlier(a, b)),
        crate::ask::answer(above, later(a, b)),
    );
    assert(first < last);
    assert(crate::ask::answer(edge, first) < crate::ask::answer(edge, last));
}

/// A click always contains the click, and a drag its own ends: where the answers are those of a
/// grid, the pointer is inside what it selected.
pub proof fn law_a_selection_contains_the_pointer<
    B: Fn(u64) -> i64,
    A: Fn(u64) -> i64,
    E: Fn(i64) -> u64,
>(below: B, above: A, edge: E, a: u64, b: u64)
    requires
        crate::ask::answer(below, earlier(a, b)) < i64::MAX,
        crate::ask::answer(edge, crate::ask::answer(below, earlier(a, b))) <= earlier(a, b),
        later(a, b) <= crate::ask::answer(edge, crate::ask::answer(above, later(a, b))),
        forall|c: i64, d: i64|
            c <= d ==> #[trigger] crate::ask::answer(edge, c) <= #[trigger] crate::ask::answer(
                edge,
                d,
            ),
    ensures
        snapped(below, above, edge, a, b).start <= earlier(a, b),
        later(a, b) <= snapped(below, above, edge, a, b).end,
{
    let first = crate::ask::answer(below, earlier(a, b));
    let last = crate::ask::answer(above, later(a, b));
    if last <= first {
        assert(crate::ask::answer(edge, last) <= crate::ask::answer(edge, (first + 1) as i64));
    }
}

/// The lines of a grid, cell by cell: each cell begins after the one before it.
pub open spec fn is_grid(lines: spec_fn(int) -> int) -> bool {
    forall|c: int, d: int| c < d ==> #[trigger] lines(c) < #[trigger] lines(d)
}

/// A drag goes from grid line to grid line: it starts on the last line at or before its earlier
/// end, and ends on the first one at or after its later end, or on the line after its start where
/// the two would coincide. So it is a whole number of cells, at least one.
pub proof fn law_a_drag_goes_from_line_to_line<
    B: Fn(u64) -> i64,
    A: Fn(u64) -> i64,
    E: Fn(i64) -> u64,
>(below: B, above: A, edge: E, lines: spec_fn(int) -> int, a: u64, b: u64) -> (cells: (int, int))
    requires
        is_grid(lines),
        ({
            let first = crate::ask::answer(below, earlier(a, b));
            lines(first as int) <= earlier(a, b) < lines(first + 1) && first < i64::MAX
        }),
        ({
            let last = crate::ask::answer(above, later(a, b));
            lines(last - 1) < later(a, b) <= lines(last as int)
        }),
        ({
            let (first, last) = dragged(
                crate::ask::answer(below, earlier(a, b)),
                crate::ask::answer(above, later(a, b)),
            );
            crate::ask::answer(edge, first) == lines(first as int) && crate::ask::answer(edge, last)
                == lines(last as int)
        }),
    ensures
        ({
            let selection = snapped(below, above, edge, a, b);
            let (first, last) = cells;
            &&& selection == snapped(below, above, edge, b, a)
            &&& first < last
            &&& selection.start == lines(first)
            &&& selection.end == lines(last)
            &&& selection.start < selection.end
            &&& forall|c: int| #[trigger] lines(c) <= earlier(a, b) ==> lines(c) <= selection.start
            &&& selection.start <= earlier(a, b)
            &&& later(a, b) <= selection.end
            &&& forall|c: int|
                later(a, b) <= #[trigger] lines(c) && selection.start < lines(c) ==> selection.end
                    <= lines(c)
        }),
{
    let first = crate::ask::answer(below, earlier(a, b));
    let above_end = crate::ask::answer(above, later(a, b));
    let (_, last) = dragged(first, above_end);
    if above_end < first {
        assert(lines(above_end as int) < lines(first as int));
    }
    assert(last == if above_end <= first {
        first + 1
    } else {
        above_end as int
    });
    assert(lines(first as int) < lines(last as int));
    assert forall|c: int| #[trigger] lines(c) <= earlier(a, b) implies lines(c) <= lines(
        first as int,
    ) by {
        if c > first && c != first + 1 {
            assert(lines(first + 1) < lines(c));
        }
        if c < first {
            assert(lines(c) < lines(first as int));
        }
    }
    assert forall|c: int|
        later(a, b) <= #[trigger] lines(c) && lines(first as int) < lines(c) implies lines(
        last as int,
    ) <= lines(c) by {
        if c < last {
            if c < last - 1 {
                assert(lines(c) < lines(last - 1));
            }
            if c <= first && c != first {
                assert(lines(c) < lines(first as int));
            }
        } else if c > last {
            assert(lines(last as int) < lines(c));
        }
    }
    (first as int, last as int)
}

/// A range taken to the head never reaches past it.
pub proof fn law_nothing_past_the_limit<B: Fn(u64) -> i64, E: Fn(i64) -> u64>(
    below: B,
    edge: E,
    a: u64,
    b: u64,
    limit: u64,
)
    requires
        crate::ask::answer(edge, crate::ask::answer(below, earlier(later(a, b), limit))) <= earlier(
            later(a, b),
            limit,
        ),
    ensures
        snapped_upto(below, edge, a, b, limit) matches Some(selection) ==> selection.end <= limit,
{
}

/// The number row gives a whole number of cells, at least one and no more than was asked for,
/// inside the window and complete at the head. The keys outside one to ten mean the nearest of
/// them.
pub proof fn law_the_number_row_selects_whole_recent_cells(
    complete: i64,
    wanted: i64,
    oldest: i64,
    key: u32,
)
    ensures
        recent(complete, wanted, oldest) matches Some((first, last)) ==> {
            &&& oldest <= first < last
            &&& last == complete
            &&& last - first <= if wanted < 1 {
                1
            } else {
                wanted as int
            }
        },
        recent(complete, wanted, oldest) is None <==> complete <= oldest,
        tenths_of(0) == tenths_of(1),
        key >= 10 ==> tenths_of(key) == 10,
{
}

/// The ladder walk stops at both ends: down from anywhere reaches auto and stays there, and up
/// from anywhere reaches the coarsest rung and stays there.
pub proof fn law_the_ladder_stops_at_both_ends(rung: Option<usize>, step: i32)
    requires
        rung matches Some(rung) ==> rung < RUNGS,
    ensures
        step <= -(RUNGS as int) ==> setting_at(position_of(rung) + step) is None,
        step >= RUNGS ==> setting_at(position_of(rung) + step) == Some((RUNGS - 1) as usize),
        setting_at(position_of(None) + 1) == Some(0usize),
        setting_at(position_of(rung)) == rung,
{
}

} // verus!
