//! Buffers for the device, and what is read back from it.
use crate::fft::Stage;
use crate::grid::Rule;
use crate::view::Column;
use vstd::arithmetic::div_mod::*;
use vstd::arithmetic::power2::*;
use vstd::prelude::*;

verus! {

/// Words are in a buffer one behind the other, low byte first, and nothing else is.
pub proof fn law_words_are_read_back(words: Seq<u32>, i: int)
    requires
        0 <= i < words.len(),
    ensures
        crate::fft::word_bytes(words).len() == 4 * words.len(),
        crate::laws::bytes::word32(crate::fft::word_bytes(words), 4 * i) == words[i],
    decreases words.len(),
{
    let shorter = words.drop_last();
    let front = crate::fft::word_bytes(shorter);
    let bytes = crate::fft::word_bytes(words);
    let last = words.last() as int;
    lemma_word_count(shorter);
    if i < shorter.len() {
        law_words_are_read_back(shorter, i);
        assert(forall|k: int| 0 <= k < front.len() ==> bytes[k] == front[k]);
    } else {
        let none = Seq::<u8>::empty();
        crate::laws::bytes::lemma_word32_at(front, last, none);
        assert(bytes =~= front + crate::bytes::le32(last) + none);
    }
}

proof fn lemma_word_count(words: Seq<u32>)
    ensures
        crate::fft::word_bytes(words).len() == 4 * words.len(),
    decreases words.len(),
{
    if words.len() > 0 {
        lemma_word_count(words.drop_last());
    }
}

/// A spectrum that comes back as words is read as pairs of them.
pub proof fn law_a_spectrum_is_read_in_pairs(words: Seq<u32>, i: int)
    requires
        words.len() % 2 == 0,
        0 <= i < words.len() / 2,
    ensures
        crate::fft::pairs_of(crate::fft::word_bytes(words)).len() == words.len() / 2,
        crate::fft::pairs_of(crate::fft::word_bytes(words))[i] == (words[2 * i], words[2 * i + 1]),
{
    lemma_word_count(words);
    law_words_are_read_back(words, 2 * i);
    law_words_are_read_back(words, 2 * i + 1);
    let bytes = crate::fft::word_bytes(words);
    assert(crate::bytes::read_le32(bytes, 8 * i) == crate::laws::bytes::word32(bytes, 4 * (2 * i)));
    assert(crate::bytes::read_le32(bytes, 8 * i + 4) == crate::laws::bytes::word32(
        bytes,
        4 * (2 * i + 1),
    ));
}

/// A reduction that comes back as words is read in fours: the least, the most and the mean of a
/// column, and whether anything was there, which a float above one half says.
pub proof fn law_a_reduction_is_read_in_fours(words: Seq<u32>, i: int)
    requires
        words.len() % 4 == 0,
        0 <= i < words.len() / 4,
    ensures
        ({
            let columns = crate::envelope::envelopes_of(crate::fft::word_bytes(words));
            &&& columns.len() == words.len() / 4
            &&& columns[i].min == words[4 * i]
            &&& columns[i].max == words[4 * i + 1]
            &&& columns[i].rms == words[4 * i + 2]
            &&& columns[i].written == (0x3F00_0000 < words[4 * i + 3] <= 0x7F80_0000)
        }),
{
    lemma_word_count(words);
    law_words_are_read_back(words, 4 * i);
    law_words_are_read_back(words, 4 * i + 1);
    law_words_are_read_back(words, 4 * i + 2);
    law_words_are_read_back(words, 4 * i + 3);
    let bytes = crate::fft::word_bytes(words);
    assert(crate::bytes::read_le32(bytes, 16 * i) == crate::laws::bytes::word32(
        bytes,
        4 * (4 * i),
    ));
    assert(crate::bytes::read_le32(bytes, 16 * i + 4) == crate::laws::bytes::word32(
        bytes,
        4 * (4 * i + 1),
    ));
    assert(crate::bytes::read_le32(bytes, 16 * i + 8) == crate::laws::bytes::word32(
        bytes,
        4 * (4 * i + 2),
    ));
    assert(crate::bytes::read_le32(bytes, 16 * i + 12) == crate::laws::bytes::word32(
        bytes,
        4 * (4 * i + 3),
    ));
}

/// A column is uploaded as the slot that its first frame lies in, and how many frames it has.
pub proof fn law_columns_are_uploaded_by_their_slots(
    columns: Seq<Column>,
    capacity: int,
    i: int,
)
    requires
        0 < capacity <= 0x1_0000_0000,
        0 <= i < columns.len(),
    ensures
        ({
            let bytes = crate::envelope::column_bytes(columns, capacity);
            &&& bytes.len() == 8 * columns.len()
            &&& crate::laws::bytes::word32(bytes, 8 * i) == columns[i].start as int % capacity
            &&& crate::laws::bytes::word32(bytes, 8 * i + 4) == columns[i].count
        }),
    decreases columns.len(),
{
    let shorter = columns.drop_last();
    let front = crate::envelope::column_bytes(shorter, capacity);
    let bytes = crate::envelope::column_bytes(columns, capacity);
    lemma_column_count(shorter, capacity);
    if i < shorter.len() {
        law_columns_are_uploaded_by_their_slots(shorter, capacity, i);
        assert(forall|k: int| 0 <= k < front.len() ==> bytes[k] == front[k]);
    } else {
        let none = Seq::<u8>::empty();
        let slot = columns.last().start as int % capacity;
        let count = columns.last().count as int;
        lemma_mod_bound(columns.last().start as int, capacity);
        let a = crate::bytes::le32(slot);
        let b = crate::bytes::le32(count);
        assert(bytes =~= front + a + b);
        crate::laws::bytes::lemma_word32_at(front, slot, b);
        assert(bytes =~= (front + a) + b + none);
        crate::laws::bytes::lemma_word32_at(front + a, count, none);
    }
}

proof fn lemma_column_count(columns: Seq<Column>, capacity: int)
    ensures
        crate::envelope::column_bytes(columns, capacity).len() == 8 * columns.len(),
    decreases columns.len(),
{
    if columns.len() > 0 {
        lemma_column_count(columns.drop_last(), capacity);
    }
}

/// The parameters of a reduction stand where the shader reads them.
pub proof fn law_a_reduction_is_told_its_shape(
    columns: u32,
    capacity: u32,
    channels: u32,
    left: u32,
    right: u32,
)
    ensures
        ({
            let words = crate::envelope::reduce_words(columns, capacity, channels, left, right);
            &&& words.len() == 8
            &&& words[0] == columns && words[1] == capacity && words[2] == channels
            &&& words[4] == left && words[5] == right
            &&& words[3] == 0 && words[6] == 0 && words[7] == 0
        }),
{
}

/// The parameters of the two passes around a transform of `n` samples: it works on half as many
/// complex values, and gives one bin more than that.
pub proof fn law_the_passes_are_told_their_sizes(n: u32, l: u32)
    requires
        n == 2 * l,
    ensures
        ({
            let prepare = crate::fft::prepare_words(n);
            let unpack = crate::fft::unpack_words(n);
            &&& prepare.len() == 20 && unpack.len() == 8
            &&& prepare[0] == n && prepare[1] == l && prepare[2] == n && prepare[7] == n
            &&& prepare[9] == l
            &&& prepare[4] == 1 && prepare[5] == 1 && prepare[6] == 1 && prepare[8] == 1
            &&& prepare[12] == 0x3F80_0000 && prepare[16] == 0x3F80_0000
            &&& prepare[3] == 0 && prepare[10] == 0 && prepare[11] == 0
            &&& prepare[13] == 0 && prepare[14] == 0 && prepare[15] == 0
            &&& prepare[17] == 0 && prepare[18] == 0 && prepare[19] == 0
            &&& unpack[0] == l && unpack[1] == n && unpack[3] == l + 1
            &&& unpack[2] == 0 && unpack[4] == 0 && unpack[5] == 0 && unpack[6] == 0 && unpack[7]
                == 0
        }),
{
}

/// Every stage takes up where the one before it left off, with as many threads as it has groups of
/// its radix. All are of radix four but the first, which is of radix two where the logarithm of the
/// length is odd.
pub proof fn law_a_stage_takes_up_where_the_last_left_off(l: u32, log2: nat, i: int)
    requires
        l == pow2(log2),
        0 <= i < crate::fft::schedule_of(l, log2).len(),
    ensures
        ({
            let stages = crate::fft::schedule_of(l, log2);
            &&& stages[i].radix == if i == 0 && log2 % 2 == 1 {
                2int
            } else {
                4
            }
            &&& stages[i].threads == l / stages[i].radix
            &&& i == 0 ==> stages[i].span == 1
            &&& i > 0 ==> stages[i].span == stages[i - 1].span * stages[i - 1].radix
        }),
{
    lemma2_to64();
    let stages = crate::fft::schedule_of(l, log2);
    if log2 % 2 == 1 {
        let fours = crate::fft::fours_from(l, 2);
        if i >= 1 {
            assert(stages[i] == fours[i - 1]);
            lemma_fours(l, 2, i - 1);
            if i >= 2 {
                assert(stages[i - 1] == fours[i - 2]);
                lemma_fours(l, 2, i - 2);
            }
        }
    } else {
        lemma_fours(l, 1, i);
        if i >= 1 {
            lemma_fours(l, 1, i - 1);
        }
    }
    if i >= 1 {
        let before = stages[i - 1];
        let by: int = if i == 1 && log2 % 2 == 1 {
            2
        } else {
            4
        };
        assert(before.radix == by);
        assert(before.span * before.radix == before.span * by) by (nonlinear_arith)
            requires
                before.radix == by,
        ;
    }
}

proof fn lemma_fours(l: u32, span: int, i: int)
    requires
        0 < span,
        0 <= i < crate::fft::fours_from(l, span).len(),
    ensures
        ({
            let stages = crate::fft::fours_from(l, span);
            &&& stages[i].radix == 4
            &&& stages[i].threads == l / 4
            &&& stages[0].span == span
            &&& i > 0 ==> stages[i].span == stages[i - 1].span * 4
        }),
    decreases i,
{
    let stages = crate::fft::fours_from(l, span);
    let rest = crate::fft::fours_from(l, 4 * span);
    if i > 0 {
        assert(stages[i] == rest[i - 1]);
        lemma_fours(l, 4 * span, i - 1);
        if i > 1 {
            assert(stages[i - 1] == rest[i - 2]);
        }
    }
}

/// The parameters of each stage stand a stride apart, where the shader reads them: the length, how
/// far the transform has come, the step between twiddles of the whole circle of `2 l`, and the
/// threads.
pub proof fn law_a_stage_is_told_its_parameters(l: u32, stages: Seq<Stage>, i: int)
    requires
        0 < l <= 0x8000_0000,
        0 <= i < stages.len(),
        forall|j: int| 0 <= j < stages.len() ==> 0 < #[trigger] stages[j].span,
    ensures
        ({
            let bytes = crate::fft::stages_bytes(l, stages);
            let at = 256 * i;
            let step = crate::laws::bytes::word32(bytes, at + 8);
            &&& bytes.len() == 256 * stages.len()
            &&& crate::laws::bytes::word32(bytes, at) == l
            &&& crate::laws::bytes::word32(bytes, at + 4) == stages[i].span
            &&& stages[i].radix == 2 ==> step * stages[i].span <= l < (step + 1) * stages[i].span
            &&& stages[i].radix != 2 ==> step * (2 * stages[i].span) <= l < (step + 1) * (2
                * stages[i].span)
            &&& crate::laws::bytes::word32(bytes, at + 12) == stages[i].threads
            &&& crate::laws::bytes::word32(bytes, at + 16) == 1
            &&& crate::laws::bytes::word32(bytes, at + 20) == 2 * l - 1
            &&& crate::laws::bytes::word32(bytes, at + 24) == stages[i].threads
            &&& crate::laws::bytes::word32(bytes, at + 28) == 0
        }),
    decreases stages.len(),
{
    let shorter = stages.drop_last();
    let front = crate::fft::stages_bytes(l, shorter);
    let bytes = crate::fft::stages_bytes(l, stages);
    lemma_stage_count(l, shorter);
    if i < shorter.len() {
        law_a_stage_is_told_its_parameters(l, shorter, i);
        lemma_stage_count(l, stages);
        assert(forall|k: int| 0 <= k < front.len() ==> bytes[k] == front[k]);
    } else {
        lemma_stage_count(l, stages);
        let words = crate::fft::stage_words(l, stages.last());
        let said = crate::fft::word_bytes(words);
        assert(words.len() == 8);
        lemma_word_count(words);
        assert(forall|k: int| 0 <= k < 32 ==> #[trigger] bytes[front.len() + k] == said[k]);
        lemma_shifted(front, said, crate::bytes::zeros(224), bytes, 256 * i);
        law_words_are_read_back(words, 0);
        law_words_are_read_back(words, 1);
        law_words_are_read_back(words, 2);
        law_words_are_read_back(words, 3);
        law_words_are_read_back(words, 4);
        law_words_are_read_back(words, 5);
        law_words_are_read_back(words, 6);
        law_words_are_read_back(words, 7);
        lemma_step(l as int, stages[i].span as int);
        lemma_step(l as int, 2 * stages[i].span);
    }
}

proof fn lemma_step(l: int, span: int)
    requires
        0 <= l,
        0 < span,
    ensures
        0 <= l / span <= l,
        l / span * span <= l < (l / span + 1) * span,
{
    lemma_fundamental_div_mod(l, span);
    lemma_mod_bound(l, span);
    lemma_div_nonincreasing(l, span);
    lemma_div_pos_is_pos(l, span);
    assert(span * (l / span) == l / span * span) by (nonlinear_arith);
    assert((l / span + 1) * span == l / span * span + span) by (nonlinear_arith);
}

proof fn lemma_shifted(front: Seq<u8>, said: Seq<u8>, back: Seq<u8>, bytes: Seq<u8>, at: int)
    requires
        at == front.len(),
        bytes == front + said + back,
        said.len() == 32,
    ensures
        crate::laws::bytes::word32(bytes, at) == crate::laws::bytes::word32(said, 0),
        crate::laws::bytes::word32(bytes, at + 4) == crate::laws::bytes::word32(said, 4),
        crate::laws::bytes::word32(bytes, at + 8) == crate::laws::bytes::word32(said, 8),
        crate::laws::bytes::word32(bytes, at + 12) == crate::laws::bytes::word32(said, 12),
        crate::laws::bytes::word32(bytes, at + 16) == crate::laws::bytes::word32(said, 16),
        crate::laws::bytes::word32(bytes, at + 20) == crate::laws::bytes::word32(said, 20),
        crate::laws::bytes::word32(bytes, at + 24) == crate::laws::bytes::word32(said, 24),
        crate::laws::bytes::word32(bytes, at + 28) == crate::laws::bytes::word32(said, 28),
{
}

proof fn lemma_stage_count(l: u32, stages: Seq<Stage>)
    requires
        forall|i: int| 0 <= i < stages.len() ==> 0 < #[trigger] stages[i].span,
    ensures
        crate::fft::stages_bytes(l, stages).len() == 256 * stages.len(),
    decreases stages.len(),
{
    if stages.len() > 0 {
        lemma_stage_count(l, stages.drop_last());
        let words = crate::fft::stage_words(l, stages.last());
        assert(words.len() == 8);
        lemma_word_count(words);
    }
}

/// A copy that was not overtaken goes on where it stands, and one that was goes on at the oldest
/// frame there is.
pub proof fn law_a_copy_goes_on_where_it_can(cursor: u64, head: u64, capacity: int)
    requires
        0 < capacity,
    ensures
        head - cursor <= capacity ==> crate::envelope::resume_at(
            cursor,
            head,
            capacity,
        ) == cursor,
        head - cursor > capacity ==> crate::envelope::resume_at(cursor, head, capacity) == head
            - capacity,
{
}

/// A row of a picture takes four bytes for each pixel and as few more as make it a multiple of 256,
/// and each pixel is read from its row.
pub proof fn law_a_row_is_padded_to_the_next_multiple(
    data: Seq<u8>,
    width: int,
    x: int,
    y: int,
    k: int,
)
    requires
        0 <= x < width,
        0 <= y,
        (y + 1) * crate::render::row_bytes_of(width) <= data.len(),
        0 <= k < 4,
    ensures
        crate::render::row_bytes_of(width) % 256 == 0,
        4 * width <= crate::render::row_bytes_of(width) < 4 * width + 256,
        crate::render::padded_pixel(data, width, x, y).len() == 4,
        crate::render::padded_pixel(data, width, x, y)[k] == data[y * crate::render::row_bytes_of(
            width,
        ) + 4 * x + k],
{
    let row = crate::render::row_bytes_of(width);
    assert(4 * width <= row < 4 * width + 256);
    assert((y + 1) * row == y * row + row) by (nonlinear_arith);
    assert(0 <= y * row) by (nonlinear_arith)
        requires
            0 <= y,
            0 <= row,
    ;
}

/// Grid lines are drawn once each: the finer ones first, and those of one kind from left to right.
pub proof fn law_each_line_is_drawn_once(rules: Seq<Rule>, i: int, j: int)
    requires
        0 <= i < j < crate::render::draw_order_of(rules).len(),
    ensures
        ({
            let order = crate::render::draw_order_of(rules);
            &&& order.len() == rules.len()
            &&& 0 <= order[i] < rules.len()
            &&& order[i] != order[j]
            &&& rules[order[i]] == rules[order[j]] ==> order[i] < order[j]
            &&& rules[order[i]] == Rule::Lap ==> rules[order[j]] == Rule::Lap
            &&& rules[order[j]] == Rule::Cell ==> rules[order[i]] == Rule::Cell
        }),
{
    lemma_line_places(rules, Rule::Cell);
    lemma_line_places(rules, Rule::Bar);
    lemma_line_places(rules, Rule::Lap);
    lemma_line_count(rules);
    let a = crate::render::places_of(rules, Rule::Cell);
    let b = crate::render::places_of(rules, Rule::Bar);
    let c = crate::render::places_of(rules, Rule::Lap);
    let order = crate::render::draw_order_of(rules);
    assert forall|n: int| 0 <= n < order.len() implies #[trigger] order[n] == if n < a.len() {
        a[n]
    } else if n < a.len() + b.len() {
        b[n - a.len()]
    } else {
        c[n - a.len() - b.len()]
    } by {}
    assert(order[i] == order[i] && order[j] == order[j]);
}

proof fn lemma_line_places(rules: Seq<Rule>, rule: Rule)
    ensures
        forall|n: int|
            0 <= n < crate::render::places_of(rules, rule).len() ==> 0
                <= #[trigger] crate::render::places_of(rules, rule)[n] < rules.len()
                && rules[crate::render::places_of(rules, rule)[n]] == rule,
        forall|n: int, m: int|
            0 <= n < m < crate::render::places_of(rules, rule).len()
                ==> #[trigger] crate::render::places_of(rules, rule)[n]
                < #[trigger] crate::render::places_of(rules, rule)[m],
    decreases rules.len(),
{
    if rules.len() > 0 {
        lemma_line_places(rules.drop_last(), rule);
    }
}

proof fn lemma_line_count(rules: Seq<Rule>)
    ensures
        crate::render::places_of(rules, Rule::Cell).len() + crate::render::places_of(
            rules,
            Rule::Bar,
        ).len() + crate::render::places_of(rules, Rule::Lap).len() == rules.len(),
    decreases rules.len(),
{
    if rules.len() > 0 {
        lemma_line_count(rules.drop_last());
    }
}

} // verus!
