//! What a reader finds in an exported WAV file.
use crate::wav::{Acid, Bext, Depth, WavMeta, WavSpec};
use vstd::prelude::*;
use vstd::utf8::*;

verus! {

/// A chunk is its name, the size of its body in 32 bits, the body, and a zero where that makes it
/// even.
pub proof fn law_a_chunk_is_named_sized_and_even(id: Seq<u8>, body: Seq<u8>)
    requires
        id.len() == 4,
    ensures
        ({
            let chunk = crate::wav::chunk_bytes(id, body);
            let size = body.len() as int;
            &&& chunk.len() % 2 == 0
            &&& 8 + size <= chunk.len() <= 9 + size
            &&& chunk.subrange(0, 4) == id
            &&& crate::laws::bytes::word32(chunk, 4) == size % 0x1_0000_0000
            &&& chunk.subrange(8, 8 + size) == body
            &&& chunk.len() > 8 + size ==> chunk[8 + size] == 0
        }),
{
    reveal(crate::wav::chunk_bytes);
    let chunk = crate::wav::chunk_bytes(id, body);
    let size = body.len() as int;
    let pad = crate::bytes::zeros((body.len() % 2) as nat);
    let said = size % 0x1_0000_0000;
    assert(chunk =~= id + crate::bytes::le32(said) + (body + pad));
    crate::laws::bytes::lemma_word32_at(id, said, body + pad);
    assert(chunk.subrange(0, 4) =~= id);
    assert(chunk.subrange(8, 8 + size) =~= body);
}

/// What a format chunk says: float or integer samples, the number of channels, the rate, the bytes
/// of a second and of a frame, and the bits of a sample. A float one ends in an empty extension.
pub open spec fn says_format(body: Seq<u8>, channels: int, spec: WavSpec) -> bool {
    let bits = if spec.depth == Depth::F32 {
        32int
    } else if spec.depth == Depth::I24 {
        24
    } else {
        16
    };
    &&& body.len() == if spec.depth == Depth::F32 {
        18int
    } else {
        16
    }
    &&& crate::laws::bytes::word16(body, 0) == if spec.depth == Depth::F32 {
        3int
    } else {
        1
    }
    &&& crate::laws::bytes::word16(body, 2) == channels
    &&& crate::laws::bytes::word32(body, 4) == spec.sample_rate
    &&& crate::laws::bytes::word32(body, 8) == spec.sample_rate * (channels * bits / 8)
    &&& crate::laws::bytes::word16(body, 12) == channels * bits / 8
    &&& crate::laws::bytes::word16(body, 14) == bits
    &&& spec.depth == Depth::F32 ==> crate::laws::bytes::word16(body, 16) == 0
}

/// A format chunk says what it was written with, at every depth.
pub proof fn law_a_format_is_read_back(channels: int, spec: WavSpec)
    requires
        0 <= channels,
        channels * spec.depth.spec_bits() <= u16::MAX,
        spec.sample_rate * (channels * spec.depth.spec_bits() / 8) <= u32::MAX,
    ensures
        says_format(crate::wav::fmt_bytes(channels, spec), channels, spec),
{
    let bits = spec.depth.spec_bits() as int;
    let align = channels * bits / 8;
    let second = spec.sample_rate * align;
    lemma_format_bounds(channels, bits, spec.sample_rate as int);
    lemma_format_layout(
        spec.depth.spec_format_tag() as int,
        channels,
        spec.sample_rate as int,
        second,
        align,
        bits,
        if spec.depth == Depth::F32 {
            crate::bytes::le16(0)
        } else {
            Seq::<u8>::empty()
        },
    );
    crate::laws::bytes::law_two_bytes_hold_their_number(0);
}

proof fn lemma_format_layout(
    tag: int,
    channels: int,
    rate: int,
    second: int,
    align: int,
    bits: int,
    tail: Seq<u8>,
)
    requires
        0 <= tag < 0x1_0000,
        0 <= channels < 0x1_0000,
        0 <= rate < 0x1_0000_0000,
        0 <= second < 0x1_0000_0000,
        0 <= align < 0x1_0000,
        0 <= bits < 0x1_0000,
    ensures
        ({
            let body = crate::bytes::le16(tag) + crate::bytes::le16(channels) + crate::bytes::le32(
                rate,
            ) + crate::bytes::le32(second) + crate::bytes::le16(align) + crate::bytes::le16(bits)
                + tail;
            &&& body.len() == 16 + tail.len()
            &&& crate::laws::bytes::word16(body, 0) == tag
            &&& crate::laws::bytes::word16(body, 2) == channels
            &&& crate::laws::bytes::word32(body, 4) == rate
            &&& crate::laws::bytes::word32(body, 8) == second
            &&& crate::laws::bytes::word16(body, 12) == align
            &&& crate::laws::bytes::word16(body, 14) == bits
            &&& tail.len() >= 2 ==> crate::laws::bytes::word16(body, 16) == tail[0] + 0x100
                * tail[1]
        }),
{
    let a = crate::bytes::le16(tag);
    let b = crate::bytes::le16(channels);
    let c = crate::bytes::le32(rate);
    let d = crate::bytes::le32(second);
    let e = crate::bytes::le16(align);
    let f = crate::bytes::le16(bits);
    let none = Seq::<u8>::empty();
    let body = a + b + c + d + e + f + tail;
    assert(body =~= none + a + (b + c + d + e + f + tail));
    crate::laws::bytes::lemma_word16_at(none, tag, b + c + d + e + f + tail);
    assert(body =~= a + b + (c + d + e + f + tail));
    crate::laws::bytes::lemma_word16_at(a, channels, c + d + e + f + tail);
    assert(body =~= (a + b) + c + (d + e + f + tail));
    crate::laws::bytes::lemma_word32_at(a + b, rate, d + e + f + tail);
    assert(body =~= (a + b + c) + d + (e + f + tail));
    crate::laws::bytes::lemma_word32_at(a + b + c, second, e + f + tail);
    assert(body =~= (a + b + c + d) + e + (f + tail));
    crate::laws::bytes::lemma_word16_at(a + b + c + d, align, f + tail);
    assert(body =~= (a + b + c + d + e) + f + tail);
    crate::laws::bytes::lemma_word16_at(a + b + c + d + e, bits, tail);
    if tail.len() >= 2 {
        assert(body[16] == tail[0]);
        assert(body[17] == tail[1]);
    }
}

proof fn lemma_format_bounds(channels: int, bits: int, rate: int)
    requires
        0 <= channels,
        8 <= bits,
        0 <= rate,
    ensures
        channels <= channels * bits,
        0 <= channels * bits / 8 <= channels * bits,
        0 <= rate * (channels * bits / 8),
{
    assert(0 <= channels && channels <= channels * bits && 0 <= channels * bits / 8 && channels * bits
        / 8 <= channels * bits) by (nonlinear_arith)
        requires
            0 <= channels,
            8 <= bits,
    ;
    let align = channels * bits / 8;
    assert(0 <= rate * align) by (nonlinear_arith)
        requires
            0 <= rate,
            0 <= align,
    ;
}

/// A file says what it is, and how long it is.
pub proof fn law_a_file_says_what_it_is(planes: Seq<Seq<u32>>, spec: WavSpec, meta: WavMeta)
    requires
        crate::wav::file_bytes(planes, spec, meta).len() < 0x1_0000_0000,
    ensures
        ({
            let file = crate::wav::file_bytes(planes, spec, meta);
            &&& file.len() >= 12
            &&& file.subrange(0, 4) == seq![0x52u8, 0x49, 0x46, 0x46]
            &&& crate::laws::bytes::word32(file, 4) == file.len() - 8
            &&& file.subrange(8, 12) == seq![0x57u8, 0x41, 0x56, 0x45]
        }),
{
    let form = crate::wav::form_bytes(planes, spec, meta);
    lemma_form_begins(planes, spec, meta);
    lemma_header(form);
    assert(crate::wav::riff_id() =~= seq![0x52u8, 0x49, 0x46, 0x46]);
}

proof fn lemma_header(form: Seq<u8>)
    requires
        4 <= form.len() < 0x1_0000_0000,
    ensures
        ({
            let riff = seq![0x52u8, 0x49, 0x46, 0x46];
            let file = riff + crate::bytes::le32(form.len() as int % 0x1_0000_0000) + form;
            &&& file.len() == 8 + form.len()
            &&& file.subrange(0, 4) == riff
            &&& crate::laws::bytes::word32(file, 4) == form.len()
            &&& file.subrange(8, 12) == form.subrange(0, 4)
        }),
{
    let riff = seq![0x52u8, 0x49, 0x46, 0x46];
    let size = form.len() as int;
    let file = riff + crate::bytes::le32(size) + form;
    crate::laws::bytes::lemma_word32_at(riff, size, form);
    assert(file.subrange(0, 4) =~= riff);
    assert(file.subrange(8, 12) =~= form.subrange(0, 4));
}

/// A file says what its samples are: the format, the number of planes, the rate, and what follows
/// from them, at every depth.
pub proof fn law_a_file_says_what_its_samples_are(
    planes: Seq<Seq<u32>>,
    spec: WavSpec,
    meta: WavMeta,
)
    requires
        crate::wav::file_bytes(planes, spec, meta).len() < 0x1_0000_0000,
        planes.len() * spec.depth.spec_bits() <= u16::MAX,
        spec.sample_rate * (planes.len() * spec.depth.spec_bits() / 8) <= u32::MAX,
    ensures
        crate::wav::find(
            crate::wav::file_bytes(planes, spec, meta),
            12,
            seq![0x66u8, 0x6D, 0x74, 0x20],
        ) matches Some(body) && says_format(body, planes.len() as int, spec),
{
    law_a_format_is_read_back(planes.len() as int, spec);
    assert(crate::wav::fmt_id() =~= seq![0x66u8, 0x6D, 0x74, 0x20]);
    crate::wav::law_every_chunk_is_found(planes, spec, meta);
}

proof fn lemma_form_begins(planes: Seq<Seq<u32>>, spec: WavSpec, meta: WavMeta)
    ensures
        crate::wav::form_bytes(planes, spec, meta).len() >= 4,
        crate::wav::form_bytes(planes, spec, meta).subrange(0, 4) == seq![
            0x57u8,
            0x41,
            0x56,
            0x45,
        ],
{
    let frames = planes[0].len();
    let a = crate::wav::wave_id();
    let b = crate::wav::chunk_bytes(
        crate::wav::fmt_id(),
        crate::wav::fmt_bytes(planes.len() as int, spec),
    );
    let c = crate::wav::optional_chunk(
        crate::wav::fact_id(),
        crate::wav::fact_body(frames as int, spec),
    );
    let d = crate::wav::optional_chunk(crate::wav::bext_id(), crate::wav::bext_body(meta));
    let e = crate::wav::optional_chunk(crate::wav::acid_id(), crate::wav::acid_body(meta));
    let f = crate::wav::chunk_bytes(
        crate::wav::data_id(),
        crate::wav::samples_bytes(planes, spec, frames * planes.len()),
    );
    let form = crate::wav::form_bytes(planes, spec, meta);
    assert(form == a + b + c + d + e + f);
    assert(form.subrange(0, 4) =~= a);
    assert(a =~= seq![0x57u8, 0x41, 0x56, 0x45]);
}

/// A float file states how many frames it holds, and no other file does.
pub proof fn law_a_float_file_states_its_length(
    planes: Seq<Seq<u32>>,
    spec: WavSpec,
    meta: WavMeta,
)
    requires
        crate::wav::file_bytes(planes, spec, meta).len() < 0x1_0000_0000,
        planes[0].len() < 0x1_0000_0000,
    ensures
        match crate::wav::find(
            crate::wav::file_bytes(planes, spec, meta),
            12,
            seq![0x66u8, 0x61, 0x63, 0x74],
        ) {
            Some(body) => spec.depth == Depth::F32 && body.len() == 4
                && crate::laws::bytes::word32(body, 0) == planes[0].len(),
            None => spec.depth != Depth::F32,
        },
{
    crate::wav::law_every_chunk_is_found(planes, spec, meta);
    assert(crate::wav::fact_id() =~= seq![0x66u8, 0x61, 0x63, 0x74]);
    lemma_sample_count(planes[0].len() as int, spec);
}

proof fn lemma_sample_count(frames: int, spec: WavSpec)
    requires
        0 <= frames < 0x1_0000_0000,
    ensures
        match crate::wav::fact_body(frames, spec) {
            Some(body) => spec.depth == Depth::F32 && body.len() == 4
                && crate::laws::bytes::word32(body, 0) == frames,
            None => spec.depth != Depth::F32,
        },
{
    crate::laws::bytes::law_four_bytes_hold_their_number(frames);
}

/// The bytes of a text that a fixed-width field keeps: printable ASCII, in order.
pub proof fn lemma_printable(text: Seq<u8>)
    ensures
        crate::wav::printable(text) == text.filter(|b: u8| 0x20 <= b < 0x80),
    decreases text.len(),
{
    let keep = |b: u8| 0x20 <= b < 0x80;
    reveal(Seq::filter);
    if text.len() > 0 {
        lemma_printable(text.drop_last());
        assert(crate::wav::printable(text) =~= text.filter(keep));
    } else {
        assert(crate::wav::printable(text) =~= text.filter(keep));
    }
}

/// A text field: the printable ASCII of its text as far as it fits, and zeros behind it.
pub open spec fn holds_text(body: Seq<u8>, at: int, width: int, text: Seq<char>) -> bool {
    let kept = encode_utf8(text).filter(|b: u8| 0x20 <= b < 0x80);
    forall|i: int|
        0 <= i < width ==> #[trigger] body[at + i] == if i < kept.len() {
            kept[i]
        } else {
            0
        }
}

proof fn lemma_text_field(front: Seq<u8>, text: Seq<char>, width: nat, back: Seq<u8>)
    ensures
        crate::wav::fixed_bytes(text, width).len() == width,
        holds_text(
            front + crate::wav::fixed_bytes(text, width) + back,
            front.len() as int,
            width as int,
            text,
        ),
{
    lemma_printable(encode_utf8(text));
    let field = crate::wav::fixed_bytes(text, width);
    let all = front + field + back;
    assert forall|i: int| 0 <= i < width implies #[trigger] all[front.len() + i] == field[i] by {}
}

/// What a broadcast chunk says: every text in its field, the timestamp in two halves, the version,
/// and the history behind the reserved bytes.
pub open spec fn says_broadcast(body: Seq<u8>, bext: Bext) -> bool {
    &&& body.len() == 602 + encode_utf8(bext.coding_history@).len()
    &&& holds_text(body, 0, 256, bext.description@)
    &&& holds_text(body, 256, 32, bext.originator@)
    &&& holds_text(body, 288, 32, bext.originator_reference@)
    &&& holds_text(body, 320, 10, bext.date@)
    &&& holds_text(body, 330, 8, bext.time@)
    &&& crate::laws::bytes::word32(body, 338) + 0x1_0000_0000 * crate::laws::bytes::word32(
        body,
        342,
    ) == bext.time_reference
    &&& crate::laws::bytes::word16(body, 346) == 1
    &&& forall|i: int| 348 <= i < 602 ==> #[trigger] body[i] == 0
    &&& body.skip(602) == encode_utf8(bext.coding_history@)
}

/// A broadcast chunk gives back its timestamp, for every timestamp, and each of its texts.
#[verifier::rlimit(40)]
pub proof fn law_a_file_is_spotted_back_to_its_place(bext: Bext)
    ensures
        says_broadcast(crate::wav::bext_bytes(bext), bext),
{
    let none = Seq::<u8>::empty();
    let stamp = bext.time_reference as int;
    let low = stamp % 0x1_0000_0000;
    let high = stamp / 0x1_0000_0000;
    let a = crate::wav::fixed_bytes(bext.description@, 256);
    let b = crate::wav::fixed_bytes(bext.originator@, 32);
    let c = crate::wav::fixed_bytes(bext.originator_reference@, 32);
    let d = crate::wav::fixed_bytes(bext.date@, 10);
    let e = crate::wav::fixed_bytes(bext.time@, 8);
    let f = crate::bytes::le32(low);
    let g = crate::bytes::le32(high);
    let h = crate::bytes::le16(1);
    let z = crate::bytes::zeros(254);
    let t = encode_utf8(bext.coding_history@);
    let body = crate::wav::bext_bytes(bext);
    lemma_text_field(none, bext.description@, 256, b + c + d + e + f + g + h + z + t);
    lemma_text_field(a, bext.originator@, 32, c + d + e + f + g + h + z + t);
    lemma_text_field(a + b, bext.originator_reference@, 32, d + e + f + g + h + z + t);
    lemma_text_field(a + b + c, bext.date@, 10, e + f + g + h + z + t);
    lemma_text_field(a + b + c + d, bext.time@, 8, f + g + h + z + t);
    assert(body =~= none + a + (b + c + d + e + f + g + h + z + t));
    assert(body =~= a + b + (c + d + e + f + g + h + z + t));
    assert(body =~= (a + b) + c + (d + e + f + g + h + z + t));
    assert(body =~= (a + b + c) + d + (e + f + g + h + z + t));
    assert(body =~= (a + b + c + d) + e + (f + g + h + z + t));
    let front = a + b + c + d + e;
    assert(front.len() == 338);
    assert(body =~= front + f + (g + h + z + t));
    crate::laws::bytes::lemma_word32_at(front, low, g + h + z + t);
    assert(body =~= (front + f) + g + (h + z + t));
    crate::laws::bytes::lemma_word32_at(front + f, high, h + z + t);
    assert(body =~= (front + f + g) + h + (z + t));
    crate::laws::bytes::lemma_word16_at(front + f + g, 1, z + t);
    let fixed = front + f + g + h;
    assert(fixed.len() == 348);
    assert(body =~= fixed + z + t);
    assert forall|i: int| 348 <= i < 602 implies #[trigger] body[i] == 0 by {
        assert(body[i] == z[i - 348]);
    }
    assert(body.skip(602) =~= t);
}

/// What a loop chunk says: that the file stretches and is no one-shot, its root note where it has
/// one, its length in quarters, its meter and its tempo.
pub open spec fn says_loop(body: Seq<u8>, acid: Acid) -> bool {
    &&& body.len() == 24
    &&& crate::laws::bytes::word32(body, 0) == 4 + if acid.root is Some {
        2int
    } else {
        0
    }
    &&& acid.root matches Some(note) ==> crate::laws::bytes::word16(body, 4) == note
    &&& acid.root is None ==> crate::laws::bytes::word16(body, 4) == 60
    &&& crate::laws::bytes::word16(body, 6) == 0x8000
    &&& crate::laws::bytes::word32(body, 8) == 0
    &&& crate::laws::bytes::word32(body, 12) == acid.quarters
    &&& crate::laws::bytes::word16(body, 16) == acid.meter.den as int % 0x1_0000
    &&& crate::laws::bytes::word16(body, 18) == acid.meter.num as int % 0x1_0000
    &&& crate::laws::bytes::word32(body, 20) == acid.tempo
}

/// A loop chunk gives back the tempo, the length and the meter that it was written with.
#[verifier::rlimit(40)]
pub proof fn law_a_loop_says_its_tempo_and_length(acid: Acid)
    ensures
        says_loop(crate::wav::acid_bytes(acid), acid),
{
    let none = Seq::<u8>::empty();
    let flags = if acid.root is Some {
        0x06int
    } else {
        0x04
    };
    let root = match acid.root {
        Some(note) => note as int,
        None => 60,
    };
    let den = acid.meter.den as int % 0x1_0000;
    let num = acid.meter.num as int % 0x1_0000;
    let a = crate::bytes::le32(flags);
    let b = crate::bytes::le16(root);
    let c = crate::bytes::le16(0x8000);
    let z = crate::bytes::zeros(4);
    let d = crate::bytes::le32(acid.quarters as int);
    let e = crate::bytes::le16(den);
    let f = crate::bytes::le16(num);
    let g = crate::bytes::le32(acid.tempo as int);
    let body = crate::wav::acid_bytes(acid);
    assert(body == a + b + c + z + d + e + f + g);
    assert(body =~= none + a + (b + c + z + d + e + f + g));
    crate::laws::bytes::lemma_word32_at(none, flags, b + c + z + d + e + f + g);
    assert(body =~= a + b + (c + z + d + e + f + g));
    crate::laws::bytes::lemma_word16_at(a, root, c + z + d + e + f + g);
    assert(body =~= (a + b) + c + (z + d + e + f + g));
    crate::laws::bytes::lemma_word16_at(a + b, 0x8000, z + d + e + f + g);
    let h = a + b + c;
    assert(h.len() == 8);
    assert(body =~= h + z + (d + e + f + g));
    assert(body[8] == z[0] && body[9] == z[1] && body[10] == z[2] && body[11] == z[3]);
    assert(body =~= (h + z) + d + (e + f + g));
    crate::laws::bytes::lemma_word32_at(h + z, acid.quarters as int, e + f + g);
    assert(body =~= (h + z + d) + e + (f + g));
    crate::laws::bytes::lemma_word16_at(h + z + d, den, f + g);
    assert(body =~= (h + z + d + e) + f + g);
    crate::laws::bytes::lemma_word16_at(h + z + d + e, num, g);
    assert(body =~= (h + z + d + e + f) + g + none);
    crate::laws::bytes::lemma_word32_at(h + z + d + e + f, acid.tempo as int, none);
}

/// The metadata of a file is found in it where it was given, and says what it was given; where it
/// was not, there is none.
pub proof fn law_a_file_carries_its_metadata(
    planes: Seq<Seq<u32>>,
    spec: WavSpec,
    meta: WavMeta,
)
    requires
        crate::wav::file_bytes(planes, spec, meta).len() < 0x1_0000_0000,
    ensures
        ({
            let file = crate::wav::file_bytes(planes, spec, meta);
            &&& match crate::wav::find(file, 12, seq![0x62u8, 0x65, 0x78, 0x74]) {
                Some(body) => meta.bext matches Some(bext) && says_broadcast(body, bext),
                None => meta.bext is None,
            }
            &&& match crate::wav::find(file, 12, seq![0x61u8, 0x63, 0x69, 0x64]) {
                Some(body) => meta.acid matches Some(acid) && says_loop(body, acid),
                None => meta.acid is None,
            }
        }),
{
    crate::wav::law_every_chunk_is_found(planes, spec, meta);
    assert(crate::wav::bext_id() =~= seq![0x62u8, 0x65, 0x78, 0x74]);
    assert(crate::wav::acid_id() =~= seq![0x61u8, 0x63, 0x69, 0x64]);
    if let Some(bext) = meta.bext {
        law_a_file_is_spotted_back_to_its_place(bext);
    }
    if let Some(acid) = meta.acid {
        law_a_loop_says_its_tempo_and_length(acid);
    }
}

/// What stands in a file for a chunk with a body of `size` bytes.
pub open spec fn room_of(size: int) -> int {
    8 + size + size % 2
}

proof fn lemma_room(id: Seq<u8>, body: Seq<u8>)
    requires
        id.len() == 4,
    ensures
        crate::wav::chunk_bytes(id, body).len() == room_of(body.len() as int),
{
    law_a_chunk_is_named_sized_and_even(id, body);
}

/// A file holds nothing else: its header, the format, the length where the samples are floats, the
/// metadata that it was given, and the samples of every plane.
pub proof fn law_a_file_holds_nothing_else(
    planes: Seq<Seq<u32>>,
    spec: WavSpec,
    meta: WavMeta,
)
    ensures
        ({
            let frames = planes[0].len();
            let samples = frames * planes.len();
            let width = if spec.depth == Depth::F32 {
                4int
            } else if spec.depth == Depth::I24 {
                3
            } else {
                2
            };
            let format = if spec.depth == Depth::F32 {
                room_of(18) + room_of(4)
            } else {
                room_of(16)
            };
            let broadcast = match meta.bext {
                Some(bext) => room_of(602 + encode_utf8(bext.coding_history@).len() as int),
                None => 0,
            };
            let looped = match meta.acid {
                Some(acid) => room_of(24),
                None => 0,
            };
            crate::wav::file_bytes(planes, spec, meta).len() == 12 + format + broadcast + looped
                + room_of(samples * width)
        }),
{
    lemma_format_room(planes.len() as int, planes[0].len() as int, spec);
    lemma_metadata_room(meta);
    lemma_data_room(planes, spec);
    lemma_file_room(planes, spec, meta);
}

proof fn lemma_file_room(planes: Seq<Seq<u32>>, spec: WavSpec, meta: WavMeta)
    ensures
        crate::wav::file_bytes(planes, spec, meta).len() == 12 + crate::wav::chunk_bytes(
            crate::wav::fmt_id(),
            crate::wav::fmt_bytes(planes.len() as int, spec),
        ).len() + crate::wav::optional_chunk(
            crate::wav::fact_id(),
            crate::wav::fact_body(planes[0].len() as int, spec),
        ).len() + crate::wav::optional_chunk(
            crate::wav::bext_id(),
            crate::wav::bext_body(meta),
        ).len() + crate::wav::optional_chunk(
            crate::wav::acid_id(),
            crate::wav::acid_body(meta),
        ).len() + crate::wav::chunk_bytes(
            crate::wav::data_id(),
            crate::wav::samples_bytes(planes, spec, planes[0].len() * planes.len()),
        ).len(),
{
}

proof fn lemma_format_room(channels: int, frames: int, spec: WavSpec)
    ensures
        crate::wav::chunk_bytes(
            crate::wav::fmt_id(),
            crate::wav::fmt_bytes(channels, spec),
        ).len() == if spec.depth == Depth::F32 {
            room_of(18)
        } else {
            room_of(16)
        },
        crate::wav::optional_chunk(
            crate::wav::fact_id(),
            crate::wav::fact_body(frames, spec),
        ).len() == if spec.depth == Depth::F32 {
            room_of(4)
        } else {
            0
        },
{
    lemma_room(crate::wav::fmt_id(), crate::wav::fmt_bytes(channels, spec));
    if spec.depth == Depth::F32 {
        lemma_room(crate::wav::fact_id(), crate::wav::fact_body(frames, spec)->0);
    }
}

#[verifier::rlimit(40)]
proof fn lemma_metadata_room(meta: WavMeta)
    ensures
        crate::wav::optional_chunk(crate::wav::bext_id(), crate::wav::bext_body(meta)).len()
            == match meta.bext {
            Some(bext) => room_of(602 + encode_utf8(bext.coding_history@).len() as int),
            None => 0,
        },
        crate::wav::optional_chunk(crate::wav::acid_id(), crate::wav::acid_body(meta)).len()
            == match meta.acid {
            Some(acid) => room_of(24),
            None => 0,
        },
{
    if let Some(bext) = meta.bext {
        law_a_file_is_spotted_back_to_its_place(bext);
        lemma_room(crate::wav::bext_id(), crate::wav::bext_bytes(bext));
    }
    if let Some(acid) = meta.acid {
        law_a_loop_says_its_tempo_and_length(acid);
        lemma_room(crate::wav::acid_id(), crate::wav::acid_bytes(acid));
    }
}

proof fn lemma_data_room(planes: Seq<Seq<u32>>, spec: WavSpec)
    ensures
        ({
            let samples = planes[0].len() * planes.len();
            let width = if spec.depth == Depth::F32 {
                4int
            } else if spec.depth == Depth::I24 {
                3
            } else {
                2
            };
            crate::wav::chunk_bytes(
                crate::wav::data_id(),
                crate::wav::samples_bytes(planes, spec, samples),
            ).len() == room_of(samples * width)
        }),
{
    let samples = planes[0].len() * planes.len();
    let width = spec.depth.spec_bits() as nat / 8;
    crate::wav::law_samples_fill_their_blocks(planes, spec, samples);
    lemma_room(crate::wav::data_id(), crate::wav::samples_bytes(planes, spec, samples));
    assert(width == if spec.depth == Depth::F32 {
        4int
    } else if spec.depth == Depth::I24 {
        3
    } else {
        2
    });
}

/// The number that a row of digits says.
pub open spec fn number_of(digits: Seq<char>) -> int
    decreases digits.len(),
{
    if digits.len() == 0 {
        0
    } else {
        10 * number_of(digits.drop_last()) + (digits.last() as int - '0' as int)
    }
}

/// A number is written in decimal digits that say it, without a zero in front.
pub proof fn law_a_number_is_written_in_decimal(n: nat)
    ensures
        ({
            let text = crate::wav::decimal(n);
            &&& text.len() > 0
            &&& number_of(text) == n
            &&& forall|i: int| 0 <= i < text.len() ==> '0' <= #[trigger] text[i] <= '9'
            &&& text.len() > 1 ==> text[0] != '0'
        }),
    decreases n,
{
    let text = crate::wav::decimal(n);
    if n >= 10 {
        law_a_number_is_written_in_decimal(n / 10);
        let front = crate::wav::decimal(n / 10);
        assert(text.drop_last() =~= front);
        if front.len() == 1 {
            assert(front.drop_last() =~= Seq::empty());
            assert(number_of(front.drop_last()) == 0);
            assert(number_of(front) == front[0] as int - '0' as int);
        }
    } else {
        assert(text.drop_last() =~= Seq::empty());
        assert(number_of(text.drop_last()) == 0);
    }
}

/// A captured file says that it is uncompressed, its rate in decimal, that its samples are 32 bits
/// wide, and whether there is more than one channel of them, on a line of its own.
pub proof fn law_a_capture_says_how_it_was_coded(sample_rate: u32, channels: usize) -> (digits: Seq<
    char,
>)
    ensures
        number_of(digits) == sample_rate,
        forall|i: int| 0 <= i < digits.len() ==> '0' <= #[trigger] digits[i] <= '9',
        channels > 1 ==> crate::wav::coding_history_of(sample_rate, channels) == "A=PCM,F="@ + digits
            + ",W=32,M=stereo\r\n"@,
        channels <= 1 ==> crate::wav::coding_history_of(sample_rate, channels) == "A=PCM,F="@
            + digits + ",W=32,M=mono\r\n"@,
{
    let digits = crate::wav::decimal(sample_rate as nat);
    law_a_number_is_written_in_decimal(sample_rate as nat);
    reveal_strlit(",W=32,M=");
    reveal_strlit("stereo");
    reveal_strlit("mono");
    reveal_strlit("\r\n");
    reveal_strlit(",W=32,M=stereo\r\n");
    reveal_strlit(",W=32,M=mono\r\n");
    let history = crate::wav::coding_history_of(sample_rate, channels);
    if channels > 1 {
        assert(history =~= "A=PCM,F="@ + digits + ",W=32,M=stereo\r\n"@);
    } else {
        assert(history =~= "A=PCM,F="@ + digits + ",W=32,M=mono\r\n"@);
    }
    digits
}

} // verus!
