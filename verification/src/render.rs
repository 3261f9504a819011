//! Drawing without the device: the layout of an offscreen target that can be read back, and the
//! rectangles that are drawn over the trace.
use crate::fft::words_to_bytes;
use crate::grid::Rule;
use vstd::prelude::*;

verus! {

/// Bytes in one row of a target that is copied to a buffer: four per pixel, rounded up to a
/// multiple of 256.
pub open spec fn row_bytes_of(width: int) -> int {
    (width * 4 + 255) / 256 * 256
}

pub fn row_bytes(width: u32) -> (bytes: u32)
    requires
        width <= 0x3FFF_FFC0,
    ensures
        bytes == row_bytes_of(width as int),
        bytes >= width * 4,
        bytes % 256 == 0,
{
    (width * 4 + 255) / 256 * 256
}

/// The pixel at column `x` of row `y` in padded rows.
pub open spec fn padded_pixel(data: Seq<u8>, width: int, x: int, y: int) -> Seq<u8> {
    let at = y * row_bytes_of(width) + x * 4;
    data.subrange(at, at + 4)
}

/// Steps over the padding: the pixels of a target, row by row.
pub fn unpadded(data: &[u8], width: u32, height: u32) -> (pixels: Vec<[u8; 4]>)
    requires
        width <= 0x3FFF_FFC0,
        data@.len() >= height * row_bytes_of(width as int),
    ensures
        pixels@.len() == width * height,
        forall|x: int, y: int|
            0 <= x < width && 0 <= y < height ==> (#[trigger] pixels@[y * width + x])@
                == padded_pixel(data@, width as int, x, y),
{
    let total: usize = data.len();
    let stride: usize = row_bytes(width) as usize;
    let mut pixels: Vec<[u8; 4]> = Vec::new();
    let mut y: u32 = 0;
    while y < height
        invariant
            y <= height,
            total == data@.len(),
            stride == row_bytes_of(width as int),
            stride >= width * 4,
            total >= height * stride,
            pixels@.len() == y * width,
            forall|a: int, b: int|
                0 <= a < width && 0 <= b < y ==> (#[trigger] pixels@[b * width + a])@
                    == padded_pixel(data@, width as int, a, b),
        decreases height - y,
    {
        proof {
            assert(y * stride + stride <= height * stride) by (nonlinear_arith)
                requires
                    y < height,
            ;
            assert(0 <= y * stride) by (nonlinear_arith);
        }
        let start: usize = y as usize * stride;
        let ghost before = pixels@;
        let mut x: u32 = 0;
        while x < width
            invariant
                x <= width,
                y < height,
                total == data@.len(),
                stride == row_bytes_of(width as int),
                stride >= width * 4,
                start == y * stride,
                start + stride <= total,
                before.len() == y * width,
                pixels@.len() == y * width + x,
                forall|i: int| 0 <= i < before.len() ==> pixels@[i] == before[i],
                forall|a: int|
                    0 <= a < x ==> (#[trigger] pixels@[y * width + a])@ == padded_pixel(
                        data@,
                        width as int,
                        a,
                        y as int,
                    ),
            decreases width - x,
        {
            let at: usize = start + x as usize * 4;
            let pixel: [u8; 4] = [data[at], data[at + 1], data[at + 2], data[at + 3]];
            assert(pixel@ =~= padded_pixel(data@, width as int, x as int, y as int));
            pixels.push(pixel);
            x = x + 1;
        }
        proof {
            assert((y + 1) * width == y * width + width) by (nonlinear_arith);
            assert forall|a: int, b: int|
                0 <= a < width && 0 <= b < y + 1 implies (#[trigger] pixels@[b * width + a])@
                == padded_pixel(data@, width as int, a, b) by {
                if b < y {
                    assert(0 <= b * width + a && b * width + a < y * width) by (nonlinear_arith)
                        requires
                            0 <= a < width,
                            0 <= b < y,
                    ;
                    assert(pixels@[b * width + a] == before[b * width + a]);
                }
            }
        }
        y = y + 1;
    }
    assert(y * width == width * height) by (nonlinear_arith)
        requires
            y == height,
    ;
    pixels
}

/// The pixel at `(x, y)`, origin top left.
pub fn pixel(pixels: &[[u8; 4]], width: u32, x: u32, y: u32) -> (pixel: [u8; 4])
    requires
        y * width + x < pixels@.len(),
        y * width + x <= u32::MAX,
    ensures
        pixel == pixels@[y * width + x],
{
    assert(0 <= y * width) by (nonlinear_arith);
    pixels[(y * width + x) as usize]
}

/// A list of rectangles in pixel space, built each frame and uploaded in one go. Coordinates and
/// colours are the bits of floats.
#[derive(Debug)]
pub struct Overlay {
    rects: Vec<u32>,
    count: u32,
}

impl Overlay {
    /// The rectangles: four coordinates and four colour components each.
    pub closed spec fn spec_words(&self) -> Seq<u32> {
        self.rects@
    }

    pub closed spec fn spec_len(&self) -> u32 {
        self.count
    }

    pub closed spec fn wf(&self) -> bool {
        self.rects@.len() == 8 * self.count
    }

    pub fn new() -> (overlay: Overlay)
        ensures
            overlay.wf(),
            overlay.spec_len() == 0,
            overlay.spec_words() == Seq::<u32>::empty(),
    {
        Overlay { rects: Vec::new(), count: 0 }
    }

    /// Starts over.
    pub fn begin(&mut self)
        ensures
            final(self).wf(),
            final(self).spec_len() == 0,
            final(self).spec_words() == Seq::<u32>::empty(),
    {
        self.rects.clear();
        self.count = 0;
    }

    pub fn len(&self) -> (len: u32)
        ensures
            len == self.spec_len(),
    {
        self.count
    }

    pub fn is_empty(&self) -> (empty: bool)
        ensures
            empty == (self.spec_len() == 0),
    {
        self.count == 0
    }

    pub fn rect(&mut self, x0: u32, y0: u32, x1: u32, y1: u32, colour: [u32; 4])
        requires
            old(self).wf(),
            old(self).spec_len() < u32::MAX,
        ensures
            final(self).wf(),
            final(self).spec_len() == old(self).spec_len() + 1,
            final(self).spec_words() == old(self).spec_words() + seq![x0, y0, x1, y1] + colour@,
    {
        self.rects.push(x0);
        self.rects.push(y0);
        self.rects.push(x1);
        self.rects.push(y1);
        self.rects.push(colour[0]);
        self.rects.push(colour[1]);
        self.rects.push(colour[2]);
        self.rects.push(colour[3]);
        self.count = self.count + 1;
        assert(self.rects@ =~= old(self).rects@ + seq![x0, y0, x1, y1] + colour@);
    }

    /// How many rectangles are drawn, and their bytes: as many as there is room for.
    pub fn packed(&self, room: u32) -> (packed: (u32, Vec<u8>))
        requires
            self.wf(),
        ensures
            packed.0 == if self.spec_len() < room {
                self.spec_len()
            } else {
                room
            },
            packed.1@ == crate::fft::word_bytes(self.spec_words().take(8 * packed.0 as int)),
    {
        let count: u32 = if self.count < room {
            self.count
        } else {
            room
        };
        let all = self.rects.as_slice();
        let end: usize = {
            let total: usize = all.len();
            if count == self.count {
                total
            } else {
                8 * count as usize
            }
        };
        let drawn = vstd::slice::slice_subrange(all, 0, end);
        assert(drawn@ =~= self.spec_words().take(8 * count as int));
        (count, words_to_bytes(drawn))
    }
}

/// Where the lines of one rule stand among `rules`, in order.
pub open spec fn places_of(rules: Seq<Rule>, rule: Rule) -> Seq<int>
    decreases rules.len(),
{
    if rules.len() == 0 {
        Seq::empty()
    } else {
        let earlier = places_of(rules.drop_last(), rule);
        if rules.last() == rule {
            earlier.push(rules.len() - 1)
        } else {
            earlier
        }
    }
}

/// The order in which grid lines are drawn: cells, bars, laps.
pub open spec fn draw_order_of(rules: Seq<Rule>) -> Seq<int> {
    places_of(rules, Rule::Cell) + places_of(rules, Rule::Bar) + places_of(rules, Rule::Lap)
}

fn append_places(order: &mut Vec<usize>, rules: &Vec<Rule>, rule: Rule)
    ensures
        final(order)@.len() == old(order)@.len() + places_of(rules@, rule).len(),
        forall|i: int| 0 <= i < old(order)@.len() ==> final(order)@[i] == old(order)@[i],
        forall|i: int|
            0 <= i < places_of(rules@, rule).len() ==> final(order)@[old(order)@.len() + i]
                == #[trigger] places_of(rules@, rule)[i],
{
    let mut i: usize = 0;
    assert(rules@.take(0) =~= Seq::empty());
    while i < rules.len()
        invariant
            i <= rules@.len(),
            order@.len() == old(order)@.len() + places_of(rules@.take(i as int), rule).len(),
            forall|k: int| 0 <= k < old(order)@.len() ==> order@[k] == old(order)@[k],
            forall|k: int|
                0 <= k < places_of(rules@.take(i as int), rule).len() ==> order@[old(order)@.len()
                    + k] == #[trigger] places_of(rules@.take(i as int), rule)[k],
        decreases rules@.len() - i,
    {
        assert(rules@.take(i + 1).drop_last() =~= rules@.take(i as int));
        if rules[i] == rule {
            order.push(i);
        }
        i = i + 1;
    }
    assert(rules@.take(i as int) =~= rules@);
}

/// The order in which to draw grid lines: coarsest last, so that a bar line is never buried under
/// the cell line on top of it.
pub fn draw_order(rules: &Vec<Rule>) -> (order: Vec<usize>)
    ensures
        order@.len() == draw_order_of(rules@).len(),
        forall|i: int| 0 <= i < order@.len() ==> order@[i] == #[trigger] draw_order_of(rules@)[i],
{
    let mut order: Vec<usize> = Vec::new();
    append_places(&mut order, rules, Rule::Cell);
    let ghost cells = order@;
    append_places(&mut order, rules, Rule::Bar);
    let ghost bars = order@;
    append_places(&mut order, rules, Rule::Lap);
    proof {
        let a = places_of(rules@, Rule::Cell);
        let b = places_of(rules@, Rule::Bar);
        let c = places_of(rules@, Rule::Lap);
        assert forall|i: int| 0 <= i < order@.len() implies order@[i] == #[trigger] draw_order_of(
            rules@,
        )[i] by {
            if i < a.len() {
                assert(cells[0 + i] == a[i]);
                assert(bars[i] == cells[i]);
            } else if i < a.len() + b.len() {
                assert(bars[a.len() + (i - a.len())] == b[i - a.len()]);
            } else {
                let k = i - a.len() - b.len();
                assert(order@[bars.len() + k] == c[k]);
            }
        }
    }
    order
}

proof fn lemma_places(rules: Seq<Rule>, rule: Rule)
    ensures
        forall|i: int|
            0 <= i < places_of(rules, rule).len() ==> 0 <= #[trigger] places_of(rules, rule)[i]
                < rules.len() && rules[places_of(rules, rule)[i]] == rule,
        forall|n: int|
            0 <= n < rules.len() && #[trigger] rules[n] == rule ==> places_of(
                rules,
                rule,
            ).contains(n),
    decreases rules.len(),
{
    if rules.len() > 0 {
        let before = rules.drop_last();
        lemma_places(before, rule);
        let places = places_of(rules, rule);
        let earlier = places_of(before, rule);
        assert forall|n: int| 0 <= n < rules.len() && #[trigger] rules[n] == rule implies
            places.contains(n) by {
            if n < before.len() {
                assert(before[n] == rule);
                let k = choose|k: int| 0 <= k < earlier.len() && earlier[k] == n;
                assert(places[k] == n);
            } else {
                assert(places[places.len() - 1] == n);
            }
        }
    }
}

/// Every grid line is drawn, and coarser lines after finer ones.
pub proof fn law_every_line_is_drawn_coarsest_last(rules: Seq<Rule>, n: int)
    requires
        0 <= n < rules.len(),
    ensures
        draw_order_of(rules).contains(n),
        forall|i: int, j: int|
            0 <= i < j < draw_order_of(rules).len() ==> !(rules[#[trigger] draw_order_of(rules)[i]]
                == Rule::Lap && rules[#[trigger] draw_order_of(rules)[j]] != Rule::Lap) && !(
            rules[draw_order_of(rules)[i]] == Rule::Bar && rules[draw_order_of(rules)[j]]
                == Rule::Cell),
{
    lemma_places(rules, Rule::Cell);
    lemma_places(rules, Rule::Bar);
    lemma_places(rules, Rule::Lap);
    let a = places_of(rules, Rule::Cell);
    let b = places_of(rules, Rule::Bar);
    let c = places_of(rules, Rule::Lap);
    let order = draw_order_of(rules);
    match rules[n] {
        Rule::Cell => {
            let k = choose|k: int| 0 <= k < a.len() && a[k] == n;
            assert(order[k] == n);
        },
        Rule::Bar => {
            let k = choose|k: int| 0 <= k < b.len() && b[k] == n;
            assert(order[a.len() + k] == n);
        },
        Rule::Lap => {
            let k = choose|k: int| 0 <= k < c.len() && c[k] == n;
            assert(order[a.len() + b.len() + k] == n);
        },
    }
}

/// The first of some surface formats that does not convert colours by itself, or the first one.
pub fn linear_format(srgb: &Vec<bool>) -> (chosen: usize)
    ensures
        chosen == 0 && (forall|i: int| 0 <= i < srgb@.len() ==> srgb@[i]) || (chosen < srgb@.len()
            && !srgb@[chosen as int] && forall|i: int| 0 <= i < chosen ==> srgb@[i]),
{
    let mut i: usize = 0;
    while i < srgb.len()
        invariant
            i <= srgb@.len(),
            forall|k: int| 0 <= k < i ==> srgb@[k],
        decreases srgb@.len() - i,
    {
        if !srgb[i] {
            return i;
        }
        i = i + 1;
    }
    0
}

} // verus!
