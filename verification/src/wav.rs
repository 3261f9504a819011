//! WAV, with the two chunks that decide whether a dropped file lands correctly.
//!
//! * `acid` carries the tempo and the beat count, which is what makes a host warp the drop to the
//!   session tempo by itself instead of treating it as a one-shot.
//! * `bext`, Broadcast Wave, carries a sample-accurate timestamp, which is what lets a host spot a
//!   file back to the position that it was captured at.
//!
//! Samples and the tempo of a loop are carried as the bits of their single-precision floats.
use crate::bytes::{push_all, push_le16, push_le24, push_le32, push_zeros};
use crate::quantise::quantise;
use crate::tempo::Meter;
use vstd::prelude::*;
use vstd::utf8::*;

verus! {

/// Sample format of the written file.
#[derive(Clone, Copy, Debug, PartialEq, Eq, Structural)]
pub enum Depth {
    /// 32-bit float. The capture format, so this is the only lossless choice.
    F32,
    I24,
    I16,
}

impl Depth {
    pub open spec fn spec_bits(self) -> u16 {
        match self {
            Depth::F32 => 32,
            Depth::I24 => 24,
            Depth::I16 => 16,
        }
    }

    pub open spec fn spec_format_tag(self) -> u16 {
        match self {
            Depth::F32 => 3,
            _ => 1,
        }
    }

    pub fn bits(self) -> (bits: u16)
        ensures
            bits == self.spec_bits(),
    {
        match self {
            Depth::F32 => 32,
            Depth::I24 => 24,
            Depth::I16 => 16,
        }
    }

    pub fn bytes(self) -> (bytes: usize)
        ensures
            bytes == self.spec_bits() / 8,
    {
        (self.bits() / 8) as usize
    }

    /// `WAVE_FORMAT_IEEE_FLOAT` or `WAVE_FORMAT_PCM`.
    pub fn format_tag(self) -> (tag: u16)
        ensures
            tag == self.spec_format_tag(),
    {
        match self {
            Depth::F32 => 3,
            _ => 1,
        }
    }
}

#[derive(Clone, Copy, Debug)]
pub struct WavSpec {
    pub sample_rate: u32,
    pub depth: Depth,
    /// Triangular dither, applied only when quantising to an integer depth. Truncating to 16 bits
    /// without it produces quantisation error that tracks the signal. Meaningless for float, and
    /// not accepted there.
    pub dither: bool,
    /// Seeds the dither so that a given buffer always produces identical bytes.
    pub dither_seed: u64,
}

impl WavSpec {
    /// Dither is on for 16-bit, where it matters, and off otherwise.
    pub fn new(sample_rate: u32, depth: Depth) -> (spec: WavSpec)
        ensures
            spec == (WavSpec {
                sample_rate,
                depth,
                dither: depth == Depth::I16,
                dither_seed: 0x5DEECE66D,
            }),
    {
        WavSpec { sample_rate, depth, dither: depth == Depth::I16, dither_seed: 0x5DEECE66D }
    }
}

/// The ACIDized-loop chunk: a de-facto format of 24 bytes.
#[derive(Clone, Copy, Debug)]
pub struct Acid {
    /// The bits of the tempo as a single-precision float.
    pub tempo: u32,
    /// Length in quarter notes. Together with the tempo this states the loop's duration.
    pub quarters: u32,
    pub meter: Meter,
    /// MIDI note number, when the material has a key worth transposing from.
    pub root: Option<u8>,
}

/// Broadcast Wave metadata, version 1: 602 fixed bytes and a history.
#[derive(Clone, Debug)]
pub struct Bext {
    pub description: String,
    pub originator: String,
    pub originator_reference: String,
    /// `yyyy-mm-dd`.
    pub date: String,
    /// `hh:mm:ss`.
    pub time: String,
    /// Samples since midnight: the field that a host reads to spot the file back.
    pub time_reference: u64,
    pub coding_history: String,
}

impl Default for Bext {
    fn default() -> (bext: Bext)
        ensures
            bext.description@ == Seq::<char>::empty(),
            bext.originator@ == Seq::<char>::empty(),
            bext.originator_reference@ == Seq::<char>::empty(),
            bext.date@ == Seq::<char>::empty(),
            bext.time@ == Seq::<char>::empty(),
            bext.time_reference == 0,
            bext.coding_history@ == Seq::<char>::empty(),
    {
        Bext {
            description: String::new(),
            originator: String::new(),
            originator_reference: String::new(),
            date: String::new(),
            time: String::new(),
            time_reference: 0,
            coding_history: String::new(),
        }
    }
}

/// A decimal digit.
pub open spec fn digit_of(n: int) -> char {
    (48 + n) as char
}

/// A number in decimal digits, without leading zeros.
pub open spec fn decimal(n: nat) -> Seq<char>
    decreases n,
{
    if n < 10 {
        seq![digit_of(n as int)]
    } else {
        decimal(n / 10).push(digit_of(n as int % 10))
    }
}

/// How a captured file says what it holds: uncompressed samples, their rate, their width, and
/// whether there is more than one channel of them.
pub open spec fn coding_history_of(sample_rate: u32, channels: usize) -> Seq<char> {
    "A=PCM,F="@ + decimal(sample_rate as nat) + ",W=32,M="@ + if channels > 1 {
        "stereo"@
    } else {
        "mono"@
    } + "\r\n"@
}

fn digit(n: u32) -> (text: &'static str)
    requires
        n < 10,
    ensures
        text@ == seq![digit_of(n as int)],
{
    proof {
        reveal_strlit("0");
        reveal_strlit("1");
        reveal_strlit("2");
        reveal_strlit("3");
        reveal_strlit("4");
        reveal_strlit("5");
        reveal_strlit("6");
        reveal_strlit("7");
        reveal_strlit("8");
        reveal_strlit("9");
    }
    match n {
        0 => "0",
        1 => "1",
        2 => "2",
        3 => "3",
        4 => "4",
        5 => "5",
        6 => "6",
        7 => "7",
        8 => "8",
        _ => "9",
    }
}

fn append_decimal(text: &mut String, n: u32)
    ensures
        final(text)@ == old(text)@ + decimal(n as nat),
    decreases n,
{
    if n >= 10 {
        append_decimal(text, n / 10);
    }
    text.append(digit(n % 10));
    assert(text@ =~= old(text)@ + decimal(n as nat));
}

/// The broadcast metadata of a captured file. `time_reference` is where it goes back to on a
/// timeline.
pub fn capture_bext(sample_rate: u32, channels: usize, time_reference: u64) -> (bext: Bext)
    ensures
        bext.description@ == "Waveroll capture"@,
        bext.originator@ == "Waveroll"@,
        bext.originator_reference@ == Seq::<char>::empty(),
        bext.date@ == Seq::<char>::empty(),
        bext.time@ == Seq::<char>::empty(),
        bext.time_reference == time_reference,
        bext.coding_history@ == coding_history_of(sample_rate, channels),
{
    let mut coding_history = "A=PCM,F=".to_owned();
    append_decimal(&mut coding_history, sample_rate);
    coding_history.append(",W=32,M=");
    coding_history.append(
        if channels > 1 {
            "stereo"
        } else {
            "mono"
        },
    );
    coding_history.append("\r\n");
    Bext {
        description: "Waveroll capture".to_owned(),
        originator: "Waveroll".to_owned(),
        originator_reference: String::new(),
        date: String::new(),
        time: String::new(),
        time_reference,
        coding_history,
    }
}

#[derive(Clone, Debug)]
pub struct WavMeta {
    pub acid: Option<Acid>,
    pub bext: Option<Bext>,
}

impl Default for WavMeta {
    fn default() -> (meta: WavMeta)
        ensures
            meta.acid is None,
            meta.bext is None,
    {
        WavMeta { acid: None, bext: None }
    }
}

impl WavMeta {
    pub fn none() -> (meta: WavMeta)
        ensures
            meta.acid is None,
            meta.bext is None,
    {
        WavMeta { acid: None, bext: None }
    }
}

/// A chunk: its name, the size of its body, the body, and a pad byte where the body is odd. Sizes
/// are 32 bits wide.
#[verifier::opaque]
pub open spec fn chunk_bytes(id: Seq<u8>, body: Seq<u8>) -> Seq<u8> {
    id + crate::bytes::le32(body.len() as int % 0x1_0000_0000) + body + crate::bytes::zeros(
        (body.len() % 2) as nat,
    )
}

/// Appends a chunk, padded to an even length.
///
/// RIFF requires chunks to start on even offsets. An odd-length body followed by no pad byte
/// shifts every later chunk by one.
pub fn chunk(out: &mut Vec<u8>, id: [u8; 4], body: Vec<u8>)
    ensures
        final(out)@ == old(out)@ + chunk_bytes(id@, body@),
{
    let mut body = body;
    let ghost content = body@;
    proof {
        reveal(chunk_bytes);
    }
    let length: usize = body.len();
    let mut i: usize = 0;
    while i < 4
        invariant
            i <= 4,
            out@ =~= old(out)@ + id@.take(i as int),
        decreases 4 - i,
    {
        out.push(id[i]);
        i = i + 1;
    }
    push_le32(out, (length as u64 % 0x1_0000_0000) as u32);
    out.append(&mut body);
    if length % 2 == 1 {
        out.push(0);
    }
    assert(out@ =~= old(out)@ + chunk_bytes(id@, content));
}

/// The printable ASCII bytes of a text, in order.
pub open spec fn printable(text: Seq<u8>) -> Seq<u8>
    decreases text.len(),
{
    if text.len() == 0 {
        Seq::empty()
    } else {
        let before = printable(text.drop_last());
        if 0x20 <= text.last() < 0x80 {
            before.push(text.last())
        } else {
            before
        }
    }
}

/// A text as a field of exactly `width` bytes: its printable ASCII, cut or padded with zeros.
pub open spec fn fixed_bytes(text: Seq<char>, width: nat) -> Seq<u8> {
    let kept = printable(encode_utf8(text));
    if kept.len() >= width {
        kept.take(width as int)
    } else {
        kept + crate::bytes::zeros((width - kept.len()) as nat)
    }
}

proof fn lemma_printable_prefix(text: Seq<u8>, n: int)
    requires
        0 <= n <= text.len(),
    ensures
        printable(text.take(n)).len() <= printable(text).len(),
        printable(text.take(n)) == printable(text).take(printable(text.take(n)).len() as int),
    decreases text.len() - n,
{
    if n == text.len() {
        assert(text.take(n) =~= text);
        assert(printable(text).take(printable(text).len() as int) =~= printable(text));
    } else {
        lemma_printable_prefix(text, n + 1);
        let longer = printable(text.take(n + 1));
        let shorter = printable(text.take(n));
        assert(text.take(n + 1).drop_last() =~= text.take(n));
        assert(shorter =~= longer.take(shorter.len() as int));
        assert(shorter =~= printable(text).take(shorter.len() as int));
    }
}

/// Writes `text` as exactly `width` bytes, truncated or zero-padded. What is not printable ASCII
/// is dropped rather than encoded: a multi-byte character would either overflow the field or be
/// cut in half.
pub fn fixed(out: &mut Vec<u8>, text: &str, width: usize)
    ensures
        final(out)@ == old(out)@ + fixed_bytes(text@, width as nat),
{
    let bytes = text.as_bytes();
    let mut kept: usize = 0;
    let mut i: usize = 0;
    assert(bytes@.take(0) =~= Seq::<u8>::empty());
    assert(out@ =~= old(out)@ + printable(bytes@.take(0)));
    while i < bytes.len() && kept < width
        invariant
            i <= bytes@.len(),
            kept <= width,
            kept == printable(bytes@.take(i as int)).len(),
            out@ == old(out)@ + printable(bytes@.take(i as int)),
        decreases bytes@.len() - i,
    {
        let byte: u8 = bytes[i];
        assert(bytes@.take(i + 1).drop_last() =~= bytes@.take(i as int));
        if byte >= 0x20 && byte < 0x80 {
            out.push(byte);
            kept = kept + 1;
        }
        i = i + 1;
        assert(out@ =~= old(out)@ + printable(bytes@.take(i as int)));
    }
    proof {
        lemma_printable_prefix(bytes@, i as int);
        if i == bytes@.len() {
            assert(bytes@.take(i as int) =~= bytes@);
        }
    }
    push_zeros(out, width - kept);
    assert(out@ =~= old(out)@ + fixed_bytes(text@, width as nat));
}

/// The body of a `bext` chunk.
pub open spec fn bext_bytes(bext: Bext) -> Seq<u8> {
    fixed_bytes(bext.description@, 256) + fixed_bytes(bext.originator@, 32) + fixed_bytes(
        bext.originator_reference@,
        32,
    ) + fixed_bytes(bext.date@, 10) + fixed_bytes(bext.time@, 8) + crate::bytes::le32(
        bext.time_reference as int % 0x1_0000_0000,
    ) + crate::bytes::le32(bext.time_reference as int / 0x1_0000_0000) + crate::bytes::le16(1)
        + crate::bytes::zeros(254) + encode_utf8(bext.coding_history@)
}

pub fn write_bext(out: &mut Vec<u8>, bext: &Bext)
    ensures
        final(out)@ == old(out)@ + bext_bytes(*bext),
{
    fixed(out, bext.description.as_str(), 256);
    fixed(out, bext.originator.as_str(), 32);
    fixed(out, bext.originator_reference.as_str(), 32);
    fixed(out, bext.date.as_str(), 10);
    fixed(out, bext.time.as_str(), 8);
    push_le32(out, (bext.time_reference % 0x1_0000_0000) as u32);
    push_le32(out, (bext.time_reference / 0x1_0000_0000) as u32);
    push_le16(out, 1);
    // The unique identifier, unset, and the reserved bytes.
    push_zeros(out, 64);
    push_zeros(out, 190);
    push_all(out, bext.coding_history.as_str().as_bytes());
    assert(crate::bytes::zeros(64) + crate::bytes::zeros(190) =~= crate::bytes::zeros(254));
    assert(out@ =~= old(out)@ + bext_bytes(*bext));
}

/// The body of an `acid` chunk. The flags say that the file stretches and, where there is one,
/// that it has a root note; the one-shot flag stays clear.
pub open spec fn acid_bytes(acid: Acid) -> Seq<u8> {
    crate::bytes::le32(
        if acid.root is Some {
            0x06
        } else {
            0x04
        },
    ) + crate::bytes::le16(
        match acid.root {
            Some(note) => note as int,
            None => 60,
        },
    ) + crate::bytes::le16(0x8000) + crate::bytes::zeros(4) + crate::bytes::le32(
        acid.quarters as int,
    ) + crate::bytes::le16(acid.meter.den as int % 0x1_0000) + crate::bytes::le16(
        acid.meter.num as int % 0x1_0000,
    ) + crate::bytes::le32(acid.tempo as int)
}

pub fn write_acid(out: &mut Vec<u8>, acid: &Acid)
    ensures
        final(out)@ == old(out)@ + acid_bytes(*acid),
{
    let root: u16 = match acid.root {
        Some(note) => note as u16,
        None => 60,
    };
    let flags: u32 = if acid.root.is_some() {
        0x06
    } else {
        0x04
    };
    push_le32(out, flags);
    push_le16(out, root);
    push_le16(out, 0x8000);
    push_zeros(out, 4);
    push_le32(out, acid.quarters);
    push_le16(out, (acid.meter.den % 0x1_0000) as u16);
    push_le16(out, (acid.meter.num % 0x1_0000) as u16);
    push_le32(out, acid.tempo);
    assert(out@ =~= old(out)@ + acid_bytes(*acid));
}

/// A small linear congruential generator, so that dither stays reproducible.
pub struct Lcg {
    state: u64,
}

/// One step of the generator.
pub open spec fn lcg_step(state: u64) -> u64 {
    state.wrapping_mul(6364136223846793005).wrapping_add(1442695040888963407)
}

/// The state of a generator seeded with `seed` after `steps` steps.
pub open spec fn lcg_state(seed: u64, steps: nat) -> u64
    decreases steps,
{
    if steps == 0 {
        if seed % 2 == 0 {
            (seed + 1) as u64
        } else {
            seed
        }
    } else {
        lcg_step(lcg_state(seed, (steps - 1) as nat))
    }
}

/// The `n`th draw from a generator, in units of 2^-53: the top 53 bits of its state.
pub open spec fn draw(seed: u64, n: nat) -> int {
    lcg_state(seed, n + 1) as int / 2048
}

impl Lcg {
    /// The generator is seeded with `seed` and has made `steps` draws.
    pub closed spec fn at(&self, seed: u64, steps: nat) -> bool {
        self.state == lcg_state(seed, steps)
    }

    pub fn new(seed: u64) -> (lcg: Lcg)
        ensures
            lcg.at(seed, 0),
    {
        // An odd state, whatever the seed.
        assert(seed | 1 == if seed % 2 == 0 {
            (seed + 1) as u64
        } else {
            seed
        }) by (bit_vector);
        Lcg { state: seed | 1 }
    }

    /// The next draw, uniform over `[0, 1)`, in units of 2^-53.
    pub fn unit(&mut self) -> (value: u64)
        ensures
            value < 0x20_0000_0000_0000,
            forall|seed: u64, steps: nat|
                #[trigger] old(self).at(seed, steps) ==> final(self).at(seed, steps + 1) && value
                    == draw(seed, steps),
    {
        self.state = self.state.wrapping_mul(6364136223846793005).wrapping_add(1442695040888963407);
        self.state / 2048
    }
}

/// Triangular noise over two draws, one step peak to peak, in units of 2^-53: their sum less one,
/// in double precision.
pub open spec fn triangular(a: int, b: int) -> int {
    crate::quantise::nearest_double(
        crate::quantise::nearest_double(a + b) - 0x20_0000_0000_0000,
    )
}

/// Triangular noise: the sum of two independent uniforms. It makes the quantisation error
/// independent of the signal, which rectangular dither does not.
pub fn noise(a: u64, b: u64) -> (amount: i64)
    requires
        a < 0x20_0000_0000_0000,
        b < 0x20_0000_0000_0000,
    ensures
        amount == triangular(a as int, b as int),
        -0x20_0000_0000_0000 <= amount < 0x20_0000_0000_0000,
{
    let sum: u64 = a + b;
    // A sum of 54 bits is brought to an even one of its two neighbours in steps of four.
    let near: u64 = if sum < 0x20_0000_0000_0000 {
        sum
    } else if sum % 4 == 1 {
        sum - 1
    } else if sum % 4 == 3 {
        sum + 1
    } else {
        sum
    };
    proof {
        crate::quantise::lemma_nearest_of_54_bits(sum as nat);
        let less = near - 0x20_0000_0000_0000;
        if less >= 0 {
            crate::quantise::lemma_nearest_of_54_bits(less as nat);
        } else {
            crate::quantise::lemma_nearest_of_54_bits((-less) as nat);
        }
    }
    near as i64 - 0x20_0000_0000_0000
}

/// The noise that the `n`th sample of a file is dithered with.
pub open spec fn noise_of(spec: WavSpec, n: nat) -> Option<i64> {
    if spec.dither {
        Some(triangular(draw(spec.dither_seed, 2 * n), draw(spec.dither_seed, 2 * n + 1)) as i64)
    } else {
        None
    }
}

/// The bytes of the `n`th sample of a file: the float itself, or a two's-complement integer.
pub open spec fn sample_bytes(bits: u32, spec: WavSpec, n: nat) -> Seq<u8> {
    match spec.depth {
        Depth::F32 => crate::bytes::le32(bits as int),
        Depth::I24 => crate::bytes::le24(
            crate::quantise::quantised(bits, 23, noise_of(spec, n)) % 0x100_0000,
        ),
        Depth::I16 => crate::bytes::le16(
            crate::quantise::quantised(bits, 15, noise_of(spec, n)) % 0x1_0000,
        ),
    }
}

/// The first `n` samples of a file. Samples are interleaved: all channels of a frame, then the
/// next frame.
pub open spec fn samples_bytes(planes: Seq<Seq<u32>>, spec: WavSpec, n: nat) -> Seq<u8>
    decreases n,
{
    if n == 0 {
        Seq::empty()
    } else {
        let i = (n - 1) as nat;
        samples_bytes(planes, spec, i) + sample_bytes(
            planes[(i % planes.len()) as int][(i / planes.len()) as int],
            spec,
            i,
        )
    }
}

/// The body of a `fmt ` chunk. Formats other than PCM carry the size of an empty extension.
pub open spec fn fmt_bytes(channels: int, spec: WavSpec) -> Seq<u8> {
    let align = channels * spec.depth.spec_bits() / 8;
    crate::bytes::le16(spec.depth.spec_format_tag() as int) + crate::bytes::le16(channels)
        + crate::bytes::le32(spec.sample_rate as int) + crate::bytes::le32(spec.sample_rate * align)
        + crate::bytes::le16(align) + crate::bytes::le16(spec.depth.spec_bits() as int) + if spec.depth
        == Depth::F32 {
        crate::bytes::le16(0)
    } else {
        Seq::<u8>::empty()
    }
}

/// A chunk that is there where it has a body.
pub open spec fn optional_chunk(id: Seq<u8>, body: Option<Seq<u8>>) -> Seq<u8> {
    match body {
        Some(bytes) => chunk_bytes(id, bytes),
        None => Seq::empty(),
    }
}

/// The sample count, which float files state.
pub open spec fn fact_body(frames: int, spec: WavSpec) -> Option<Seq<u8>> {
    if spec.depth == Depth::F32 {
        Some(crate::bytes::le32(frames % 0x1_0000_0000))
    } else {
        None
    }
}

pub open spec fn bext_body(meta: WavMeta) -> Option<Seq<u8>> {
    match meta.bext {
        Some(bext) => Some(bext_bytes(bext)),
        None => None,
    }
}

pub open spec fn acid_body(meta: WavMeta) -> Option<Seq<u8>> {
    match meta.acid {
        Some(acid) => Some(acid_bytes(acid)),
        None => None,
    }
}

/// Everything after the size of the file: the form, then the chunks.
pub open spec fn form_bytes(planes: Seq<Seq<u32>>, spec: WavSpec, meta: WavMeta) -> Seq<u8> {
    let frames = planes[0].len();
    wave_id() + chunk_bytes(fmt_id(), fmt_bytes(planes.len() as int, spec)) + optional_chunk(
        fact_id(),
        fact_body(frames as int, spec),
    ) + optional_chunk(bext_id(), bext_body(meta)) + optional_chunk(acid_id(), acid_body(meta))
        + chunk_bytes(
        data_id(),
        samples_bytes(planes, spec, frames * planes.len()),
    )
}

/// A complete file.
pub open spec fn file_bytes(planes: Seq<Seq<u32>>, spec: WavSpec, meta: WavMeta) -> Seq<u8> {
    let form = form_bytes(planes, spec, meta);
    riff_id() + crate::bytes::le32(form.len() as int % 0x1_0000_0000) + form
}

pub open spec fn riff_id() -> Seq<u8> {
    seq![0x52u8, 0x49, 0x46, 0x46]
}

pub open spec fn wave_id() -> Seq<u8> {
    seq![0x57u8, 0x41, 0x56, 0x45]
}

pub open spec fn fmt_id() -> Seq<u8> {
    seq![0x66u8, 0x6D, 0x74, 0x20]
}

pub open spec fn fact_id() -> Seq<u8> {
    seq![0x66u8, 0x61, 0x63, 0x74]
}

pub open spec fn bext_id() -> Seq<u8> {
    seq![0x62u8, 0x65, 0x78, 0x74]
}

pub open spec fn acid_id() -> Seq<u8> {
    seq![0x61u8, 0x63, 0x69, 0x64]
}

pub open spec fn data_id() -> Seq<u8> {
    seq![0x64u8, 0x61, 0x74, 0x61]
}

/// The noise of the `n`th sample, where it is dithered.
fn next_noise(spec: &WavSpec, dither: &mut Lcg, Ghost(n): Ghost<nat>) -> (amount: Option<i64>)
    requires
        spec.dither ==> old(dither).at(spec.dither_seed, 2 * n),
    ensures
        amount == noise_of(*spec, n),
        amount matches Some(amount) ==> -0x20_0000_0000_0000 <= amount < 0x20_0000_0000_0000,
        spec.dither ==> final(dither).at(spec.dither_seed, 2 * (n + 1)),
{
    if !spec.dither {
        return None;
    }
    let first: u64 = dither.unit();
    let second: u64 = dither.unit();
    Some(noise(first, second))
}

/// A quantised sample as two's complement of one bit more.
fn wrapped(value: i32, width: u32) -> (raw: u32)
    requires
        width == 15 || width == 23,
        -(vstd::arithmetic::power2::pow2(width as nat) as int) <= value
            < vstd::arithmetic::power2::pow2(width as nat),
    ensures
        width == 15 ==> raw == value as int % 0x1_0000,
        width == 23 ==> raw == value as int % 0x100_0000,
{
    proof {
        vstd::arithmetic::power2::lemma2_to64();
    }
    if value >= 0 {
        value as u32
    } else if width == 15 {
        (value + 0x1_0000) as u32
    } else {
        (value + 0x100_0000) as u32
    }
}

/// Writes one sample, the `n`th of the file.
fn write_sample(out: &mut Vec<u8>, bits: u32, spec: &WavSpec, dither: &mut Lcg, Ghost(n): Ghost<nat>)
    requires
        spec.dither ==> spec.depth != Depth::F32,
        spec.dither ==> old(dither).at(spec.dither_seed, 2 * n),
    ensures
        final(out)@ == old(out)@ + sample_bytes(bits, *spec, n),
        spec.dither ==> final(dither).at(spec.dither_seed, 2 * (n + 1)),
{
    let amount: Option<i64> = next_noise(spec, dither, Ghost(n));
    match spec.depth {
        Depth::F32 => push_le32(out, bits),
        Depth::I24 => {
            let value: i32 = quantise(bits, 23, amount);
            push_le24(out, wrapped(value, 23));
        },
        Depth::I16 => {
            let value: i32 = quantise(bits, 15, amount);
            push_le16(out, wrapped(value, 15) as u16);
        },
    }
}

/// The interleaved samples of a file.
fn write_samples(planes: &[&[u32]], frames: usize, spec: &WavSpec) -> (out: Vec<u8>)
    requires
        planes@.len() > 0,
        forall|p: int| 0 <= p < planes@.len() ==> (#[trigger] planes@[p])@.len() == frames,
        spec.dither ==> spec.depth != Depth::F32,
    ensures
        out@ == samples_bytes(crate::ring::planes(planes@), *spec, frames as nat * planes@.len()),
{
    let ghost sources = crate::ring::planes(planes@);
    let channels: usize = planes.len();
    let mut dither = Lcg::new(spec.dither_seed);
    let mut out: Vec<u8> = Vec::new();
    let ghost mut n: nat = 0;
    let mut frame: usize = 0;
    while frame < frames
        invariant
            frame <= frames,
            channels == planes@.len(),
            channels > 0,
            sources == crate::ring::planes(planes@),
            forall|p: int| 0 <= p < planes@.len() ==> (#[trigger] planes@[p])@.len() == frames,
            spec.dither ==> spec.depth != Depth::F32,
            n == frame * channels,
            spec.dither ==> dither.at(spec.dither_seed, 2 * n),
            out@ == samples_bytes(sources, *spec, n),
        decreases frames - frame,
    {
        let mut c: usize = 0;
        while c < channels
            invariant
                c <= channels,
                frame < frames,
                channels == planes@.len(),
                channels > 0,
                sources == crate::ring::planes(planes@),
                forall|p: int| 0 <= p < planes@.len() ==> (#[trigger] planes@[p])@.len() == frames,
                spec.dither ==> spec.depth != Depth::F32,
                n == frame * channels + c,
                spec.dither ==> dither.at(spec.dither_seed, 2 * n),
                out@ == samples_bytes(sources, *spec, n),
            decreases channels - c,
        {
            let bits: u32 = planes[c][frame];
            proof {
                assert(channels * frame == frame * channels) by (nonlinear_arith);
                vstd::arithmetic::div_mod::lemma_fundamental_div_mod_converse(
                    n as int,
                    channels as int,
                    frame as int,
                    c as int,
                );
            }
            write_sample(&mut out, bits, spec, &mut dither, Ghost(n));
            proof {
                n = n + 1;
            }
            c = c + 1;
        }
        assert((frame + 1) * channels == frame * channels + channels) by (nonlinear_arith);
        frame = frame + 1;
    }
    out
}

/// The body of the format chunk. Formats other than PCM carry the size of an empty extension; a
/// strict reader is entitled to reject a float file without it.
fn format_body(channels: usize, spec: &WavSpec) -> (body: Vec<u8>)
    requires
        channels * spec.depth.spec_bits() <= u16::MAX,
        spec.sample_rate * (channels * spec.depth.spec_bits() / 8) <= u32::MAX,
    ensures
        body@ == fmt_bytes(channels as int, *spec),
{
    let bits: u16 = spec.depth.bits();
    assert(channels <= u16::MAX) by (nonlinear_arith)
        requires
            channels * bits <= u16::MAX,
            bits >= 1,
    ;
    let channels: u16 = channels as u16;
    let block_align: u16 = channels * bits / 8;
    let byte_rate: u32 = spec.sample_rate * block_align as u32;
    let mut body: Vec<u8> = Vec::new();
    push_le16(&mut body, spec.depth.format_tag());
    push_le16(&mut body, channels);
    push_le32(&mut body, spec.sample_rate);
    push_le32(&mut body, byte_rate);
    push_le16(&mut body, block_align);
    push_le16(&mut body, bits);
    if spec.depth == Depth::F32 {
        push_le16(&mut body, 0);
    }
    assert(body@ =~= fmt_bytes(channels as int, *spec));
    body
}

/// Float files are followed by a `fact` chunk stating the sample count.
fn write_fact(out: &mut Vec<u8>, frames: usize, spec: &WavSpec)
    ensures
        final(out)@ == old(out)@ + optional_chunk(
            fact_id(),
            fact_body(frames as int, *spec),
        ),
{
    if spec.depth == Depth::F32 {
        let mut fact: Vec<u8> = Vec::new();
        push_le32(&mut fact, (frames as u64 % 0x1_0000_0000) as u32);
        assert(fact@ =~= crate::bytes::le32(frames as int % 0x1_0000_0000));
        let id: [u8; 4] = [0x66, 0x61, 0x63, 0x74];
        assert(id@ =~= fact_id());
        chunk(out, id, fact);
    } else {
        assert(out@ =~= old(out)@ + optional_chunk(
            fact_id(),
            fact_body(frames as int, *spec),
        ));
    }
}

/// The metadata that there is.
fn write_meta(out: &mut Vec<u8>, meta: &WavMeta)
    ensures
        final(out)@ == old(out)@ + optional_chunk(bext_id(), bext_body(*meta)) + optional_chunk(
            acid_id(),
            acid_body(*meta),
        ),
{
    match &meta.bext {
        Some(bext) => {
            let mut body: Vec<u8> = Vec::new();
            write_bext(&mut body, bext);
            assert(body@ =~= bext_bytes(*bext));
            let id: [u8; 4] = [0x62, 0x65, 0x78, 0x74];
            assert(id@ =~= bext_id());
            chunk(out, id, body);
        },
        None => {
            assert(out@ =~= old(out)@ + optional_chunk(bext_id(), bext_body(*meta)));
        },
    }
    let ghost between = out@;
    match &meta.acid {
        Some(acid) => {
            let mut body: Vec<u8> = Vec::new();
            write_acid(&mut body, acid);
            assert(body@ =~= acid_bytes(*acid));
            let id: [u8; 4] = [0x61, 0x63, 0x69, 0x64];
            assert(id@ =~= acid_id());
            chunk(out, id, body);
        },
        None => {
            assert(out@ =~= between + optional_chunk(acid_id(), acid_body(*meta)));
        },
    }
}

/// Writes a complete WAV file.
///
/// `planes` is one slice per channel, all of the same length: the layout that the ring already
/// stores. There is at least one channel, and float is not dithered: dither is quantisation noise
/// and float is not quantised. The channel count and the byte rate fit their fields.
pub fn write(planes: &[&[u32]], spec: &WavSpec, meta: &WavMeta) -> (out: Vec<u8>)
    requires
        planes@.len() > 0,
        forall|p: int|
            0 <= p < planes@.len() ==> (#[trigger] planes@[p])@.len() == planes@[0]@.len(),
        !(spec.dither && spec.depth == Depth::F32),
        planes@.len() * spec.depth.spec_bits() <= u16::MAX,
        spec.sample_rate * (planes@.len() * spec.depth.spec_bits() / 8) <= u32::MAX,
    ensures
        out@ == file_bytes(crate::ring::planes(planes@), *spec, *meta),
{
    let ghost sources = crate::ring::planes(planes@);
    let frames: usize = planes[0].len();
    let mut form: Vec<u8> = Vec::new();
    form.push(0x57);
    form.push(0x41);
    form.push(0x56);
    form.push(0x45);
    assert(form@ =~= wave_id());
    let id: [u8; 4] = [0x66, 0x6D, 0x74, 0x20];
    assert(id@ =~= fmt_id());
    chunk(&mut form, id, format_body(planes.len(), spec));
    write_fact(&mut form, frames, spec);
    write_meta(&mut form, meta);
    let data = write_samples(planes, frames, spec);
    let id: [u8; 4] = [0x64, 0x61, 0x74, 0x61];
    assert(id@ =~= data_id());
    chunk(&mut form, id, data);
    assert(form@ == form_bytes(sources, *spec, *meta));

    let mut out: Vec<u8> = Vec::new();
    out.push(0x52);
    out.push(0x49);
    out.push(0x46);
    out.push(0x46);
    assert(out@ =~= riff_id());
    push_le32(&mut out, (form.len() as u64 % 0x1_0000_0000) as u32);
    out.append(&mut form);
    out
}

/// Walks the chunks of a file from `at` on and gives the body of the first one named `id`.
pub open spec fn find(file: Seq<u8>, at: int, id: Seq<u8>) -> Option<Seq<u8>>
    decreases file.len() - at,
{
    if at < 0 || at + 8 > file.len() {
        None
    } else {
        let size = crate::bytes::read_le32(file, at + 4);
        let next = at + 8 + size + size % 2;
        if file.subrange(at, at + 4) == id {
            Some(file.subrange(at + 8, at + 8 + size))
        } else if size < 0 || next > file.len() {
            None
        } else {
            find(file, next, id)
        }
    }
}

/// One step of the walk: a chunk is found by its name or stepped over whole.
#[verifier::rlimit(30)]
proof fn lemma_find_step(front: Seq<u8>, name: Seq<u8>, body: Seq<u8>, back: Seq<u8>, id: Seq<u8>)
    requires
        name.len() == 4,
        body.len() < 0x1_0000_0000,
    ensures
        ({
            let file = front + chunk_bytes(name, body) + back;
            let next = (front + chunk_bytes(name, body)).len() as int;
            find(file, front.len() as int, id) == if name == id {
                Some(body)
            } else {
                find(file, next, id)
            }
        }),
{
    reveal(chunk_bytes);
    let file = front + chunk_bytes(name, body) + back;
    let at = front.len() as int;
    let size = body.len() as int;
    assert(file.subrange(at, at + 4) =~= name);
    assert(crate::bytes::read_le32(file, at + 4) == size) by {
        let written = crate::bytes::le32(size);
        assert(file[at + 4] == written[0]);
        assert(file[at + 5] == written[1]);
        assert(file[at + 6] == written[2]);
        assert(file[at + 7] == written[3]);
        crate::bytes::law_four_bytes_read_back(size, Seq::empty());
        assert((written + Seq::<u8>::empty()) =~= written);
    }
    assert(file.subrange(at + 8, at + 8 + size) =~= body);
}

proof fn lemma_size_in_header(form: Seq<u8>)
    requires
        form.len() < 0x1_0000_0000,
    ensures
        crate::bytes::read_le32(
            riff_id() + crate::bytes::le32(form.len() as int % 0x1_0000_0000) + form,
            4,
        ) == form.len(),
{
    let size = form.len() as int;
    let written = crate::bytes::le32(size);
    let file = riff_id() + crate::bytes::le32(size % 0x1_0000_0000) + form;
    assert(file[4] == written[0]);
    assert(file[5] == written[1]);
    assert(file[6] == written[2]);
    assert(file[7] == written[3]);
    crate::bytes::law_four_bytes_read_back(size, Seq::empty());
    assert((written + Seq::<u8>::empty()) =~= written);
}

/// The size in the header covers everything after itself.
#[verifier::rlimit(30)]
pub proof fn law_riff_size_covers_the_file(planes: Seq<Seq<u32>>, spec: WavSpec, meta: WavMeta)
    requires
        form_bytes(planes, spec, meta).len() < 0x1_0000_0000,
    ensures
        crate::bytes::read_le32(file_bytes(planes, spec, meta), 4) == file_bytes(
            planes,
            spec,
            meta,
        ).len() - 8,
{
    lemma_size_in_header(form_bytes(planes, spec, meta));
}

/// One step of the walk over a chunk that may not be there.
proof fn lemma_find_optional(
    front: Seq<u8>,
    name: Seq<u8>,
    body: Option<Seq<u8>>,
    back: Seq<u8>,
    id: Seq<u8>,
)
    requires
        name.len() == 4,
        body matches Some(bytes) ==> bytes.len() < 0x1_0000_0000,
    ensures
        ({
            let file = front + optional_chunk(name, body) + back;
            let next = (front + optional_chunk(name, body)).len() as int;
            find(file, front.len() as int, id) == if body is Some && name == id {
                body
            } else {
                find(file, next, id)
            }
        }),
{
    match body {
        Some(bytes) => {
            lemma_find_step(front, name, bytes, back, id);
        },
        None => {
            assert(front + optional_chunk(name, body) =~= front);
        },
    }
}

/// What the walk over the chunks of a file gives.
#[verifier::rlimit(30)]
proof fn lemma_walk(
    head: Seq<u8>,
    fmt: Seq<u8>,
    fact: Option<Seq<u8>>,
    bext: Option<Seq<u8>>,
    acid: Option<Seq<u8>>,
    data: Seq<u8>,
    id: Seq<u8>,
)
    requires
        (head + chunk_bytes(fmt_id(), fmt) + optional_chunk(fact_id(), fact) + optional_chunk(
            bext_id(),
            bext,
        ) + optional_chunk(acid_id(), acid) + chunk_bytes(data_id(), data)).len() < 0x1_0000_0000,
    ensures
        find(
            head + chunk_bytes(fmt_id(), fmt) + optional_chunk(fact_id(), fact) + optional_chunk(
                bext_id(),
                bext,
            ) + optional_chunk(acid_id(), acid) + chunk_bytes(data_id(), data),
            head.len() as int,
            id,
        ) == if id == fmt_id() {
            Some(fmt)
        } else if id == fact_id() && fact is Some {
            fact
        } else if id == bext_id() && bext is Some {
            bext
        } else if id == acid_id() && acid is Some {
            acid
        } else if id == data_id() {
            Some(data)
        } else {
            None
        },
{
    let none = Seq::<u8>::empty();
    let c0 = chunk_bytes(fmt_id(), fmt);
    let c1 = optional_chunk(fact_id(), fact);
    let c2 = optional_chunk(bext_id(), bext);
    let c3 = optional_chunk(acid_id(), acid);
    let c4 = chunk_bytes(data_id(), data);
    let f1 = head + c0;
    let f2 = f1 + c1;
    let f3 = f2 + c2;
    let f4 = f3 + c3;
    let file = f4 + c4;
    lemma_chunk_length(fmt_id(), fmt);
    lemma_chunk_length(data_id(), data);
    if let Some(body) = fact {
        lemma_chunk_length(fact_id(), body);
    }
    if let Some(body) = bext {
        lemma_chunk_length(bext_id(), body);
    }
    if let Some(body) = acid {
        lemma_chunk_length(acid_id(), body);
    }
    lemma_regrouped(head, c0, c1, c2, c3, c4);
    let at = |front: Seq<u8>| find(file, front.len() as int, id);
    assert(at(head) == if id == fmt_id() {
        Some(fmt)
    } else {
        at(f1)
    }) by {
        lemma_find_step(head, fmt_id(), fmt, c1 + c2 + c3 + c4, id);
    }
    assert(at(f1) == if fact is Some && id == fact_id() {
        fact
    } else {
        at(f2)
    }) by {
        lemma_find_optional(f1, fact_id(), fact, c2 + c3 + c4, id);
    }
    assert(at(f2) == if bext is Some && id == bext_id() {
        bext
    } else {
        at(f3)
    }) by {
        lemma_find_optional(f2, bext_id(), bext, c3 + c4, id);
    }
    assert(at(f3) == if acid is Some && id == acid_id() {
        acid
    } else {
        at(f4)
    }) by {
        lemma_find_optional(f3, acid_id(), acid, c4, id);
    }
    assert(at(f4) == if id == data_id() {
        Some(data)
    } else {
        None
    }) by {
        lemma_find_step(f4, data_id(), data, none, id);
    }
}

proof fn lemma_regrouped(
    a: Seq<u8>,
    b: Seq<u8>,
    c: Seq<u8>,
    d: Seq<u8>,
    e: Seq<u8>,
    f: Seq<u8>,
)
    ensures
        a + b + c + d + e + f + Seq::<u8>::empty() == a + b + c + d + e + f,
        a + b + c + d + (e + f) == a + b + c + d + e + f,
        a + b + c + (d + e + f) == a + b + c + d + e + f,
        a + b + (c + d + e + f) == a + b + c + d + e + f,
{
    assert(a + b + c + d + e + f + Seq::<u8>::empty() =~= a + b + c + d + e + f);
    assert(a + b + c + d + (e + f) =~= a + b + c + d + e + f);
    assert(a + b + c + (d + e + f) =~= a + b + c + d + e + f);
    assert(a + b + (c + d + e + f) =~= a + b + c + d + e + f);
}

/// Every chunk is found by a walk over the sizes, so none is lost behind an unpadded one: the
/// format, the sample count of a float file, the metadata that was given and only that, and the
/// samples.
pub proof fn law_every_chunk_is_found(planes: Seq<Seq<u32>>, spec: WavSpec, meta: WavMeta)
    requires
        file_bytes(planes, spec, meta).len() < 0x1_0000_0000,
    ensures
        find(file_bytes(planes, spec, meta), 12, fmt_id()) == Some(
            fmt_bytes(planes.len() as int, spec),
        ),
        find(file_bytes(planes, spec, meta), 12, fact_id()) == fact_body(
            planes[0].len() as int,
            spec,
        ),
        find(file_bytes(planes, spec, meta), 12, bext_id()) == bext_body(meta),
        find(file_bytes(planes, spec, meta), 12, acid_id()) == acid_body(meta),
        find(file_bytes(planes, spec, meta), 12, data_id()) == Some(
            samples_bytes(planes, spec, planes[0].len() * planes.len()),
        ),
{
    let form = form_bytes(planes, spec, meta);
    let frames = planes[0].len();
    let head = riff_id() + crate::bytes::le32(form.len() as int % 0x1_0000_0000) + wave_id();
    let fmt = fmt_bytes(planes.len() as int, spec);
    let fact = fact_body(frames as int, spec);
    let bext = bext_body(meta);
    let acid = acid_body(meta);
    let data = samples_bytes(planes, spec, frames * planes.len());
    lemma_ids_differ();
    lemma_assembled(
        riff_id() + crate::bytes::le32(form.len() as int % 0x1_0000_0000),
        wave_id(),
        chunk_bytes(fmt_id(), fmt),
        optional_chunk(fact_id(), fact),
        optional_chunk(bext_id(), bext),
        optional_chunk(acid_id(), acid),
        chunk_bytes(data_id(), data),
    );
    lemma_walk(head, fmt, fact, bext, acid, data, fmt_id());
    lemma_walk(head, fmt, fact, bext, acid, data, fact_id());
    lemma_walk(head, fmt, fact, bext, acid, data, bext_id());
    lemma_walk(head, fmt, fact, bext, acid, data, acid_id());
    lemma_walk(head, fmt, fact, bext, acid, data, data_id());
}

proof fn lemma_assembled(
    a: Seq<u8>,
    b: Seq<u8>,
    c: Seq<u8>,
    d: Seq<u8>,
    e: Seq<u8>,
    f: Seq<u8>,
    g: Seq<u8>,
)
    ensures
        a + (b + c + d + e + f + g) == (a + b) + c + d + e + f + g,
{
    assert(a + (b + c + d + e + f + g) =~= (a + b) + c + d + e + f + g);
}

proof fn lemma_chunk_length(id: Seq<u8>, body: Seq<u8>)
    ensures
        chunk_bytes(id, body).len() >= body.len(),
{
    reveal(chunk_bytes);
}

proof fn lemma_ids_differ()
    ensures
        fmt_id() != fact_id(),
        fmt_id() != bext_id(),
        fmt_id() != acid_id(),
        fmt_id() != data_id(),
        fact_id() != bext_id(),
        fact_id() != acid_id(),
        fact_id() != data_id(),
        bext_id() != acid_id(),
        bext_id() != data_id(),
        acid_id() != data_id(),
{
    assert(fmt_id()[1] == 0x6D && fact_id()[1] == 0x61 && fact_id()[0] == 0x66);
    assert(bext_id()[0] == 0x62 && acid_id()[0] == 0x61 && data_id()[0] == 0x64);
    assert(fmt_id()[0] == 0x66);
}

/// A float file gives back every sample bit for bit, interleaved, and nothing else.
pub proof fn law_float_samples_round_trip(
    planes: Seq<Seq<u32>>,
    spec: WavSpec,
    total: nat,
    frame: int,
    channel: int,
)
    requires
        spec.depth == Depth::F32,
        0 <= channel < planes.len(),
        0 <= frame,
        frame * planes.len() + channel < total,
    ensures
        samples_bytes(planes, spec, total).len() == 4 * total,
        crate::bytes::read_le32(
            samples_bytes(planes, spec, total),
            4 * (frame * planes.len() + channel),
        ) == planes[channel][frame],
    decreases total,
{
    let i = (total - 1) as nat;
    let n = frame * planes.len() + channel;
    let earlier = samples_bytes(planes, spec, i);
    let sample = planes[(i % planes.len()) as int][(i / planes.len()) as int];
    let bytes = samples_bytes(planes, spec, total);
    lemma_float_length(planes, spec, i);
    if n < i {
        assert(0 <= frame * planes.len()) by (nonlinear_arith)
            requires
                0 <= frame,
        ;
        law_float_samples_round_trip(planes, spec, i, frame, channel);
        assert(forall|k: int| 0 <= k < 4 * i ==> bytes[k] == earlier[k]);
    } else {
        assert(frame * planes.len() == planes.len() * frame) by (nonlinear_arith);
        vstd::arithmetic::div_mod::lemma_fundamental_div_mod_converse(
            i as int,
            planes.len() as int,
            frame,
            channel,
        );
        let written = crate::bytes::le32(sample as int);
        assert(bytes[4 * n] == written[0]);
        assert(bytes[4 * n + 1] == written[1]);
        assert(bytes[4 * n + 2] == written[2]);
        assert(bytes[4 * n + 3] == written[3]);
        crate::bytes::law_four_bytes_read_back(sample as int, Seq::empty());
        assert((written + Seq::<u8>::empty()) =~= written);
    }
}

proof fn lemma_float_length(planes: Seq<Seq<u32>>, spec: WavSpec, total: nat)
    requires
        spec.depth == Depth::F32,
    ensures
        samples_bytes(planes, spec, total).len() == 4 * total,
    decreases total,
{
    if total > 0 {
        lemma_float_length(planes, spec, (total - 1) as nat);
    }
}

/// The samples take as many bytes as the format says: one sample's bytes for each channel of each
/// frame.
pub proof fn law_samples_fill_their_blocks(planes: Seq<Seq<u32>>, spec: WavSpec, total: nat)
    ensures
        samples_bytes(planes, spec, total).len() == total * (spec.depth.spec_bits() as nat / 8),
    decreases total,
{
    let width = spec.depth.spec_bits() as nat / 8;
    if total > 0 {
        let i = (total - 1) as nat;
        law_samples_fill_their_blocks(planes, spec, i);
        assert(total * width == i * width + width) by (nonlinear_arith)
            requires
                total == i + 1,
        ;
    } else {
        assert(total * width == 0) by (nonlinear_arith)
            requires
                total == 0,
        ;
    }
}

/// A `bext` body has 602 bytes before its history, whatever its texts are, and an `acid` body 24.
pub proof fn law_metadata_has_its_fixed_size(bext: Bext, acid: Acid)
    ensures
        bext_bytes(bext).len() == 602 + encode_utf8(bext.coding_history@).len(),
        acid_bytes(acid).len() == 24,
{
}

} // verus!
