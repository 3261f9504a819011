//! The analysis chain without the device: the stage schedule of the Stockham transform, and the
//! parameters and buffers that each dispatch needs.
//!
//! A real transform of `n` samples runs as a complex one of `l = n / 2`. Radix-4 stages halve the
//! dispatch count against radix-2; where the logarithm of `l` is odd a single radix-2 stage runs
//! first to make what remains even.
use crate::bytes::push_le32;
use vstd::arithmetic::power2::*;
use vstd::prelude::*;

verus! {

/// Dynamic uniform offsets must be a multiple of the device's alignment, which is 256 everywhere
/// that matters. One stage's parameters are 32 bytes; the rest is padding to buy the offset.
pub const STAGE_STRIDE: usize = 256;

/// The most stages a schedule can have: log4 of the largest transform, plus one.
pub const MAX_STAGES: usize = 20;

/// Threads in a workgroup.
pub const WORKGROUP: u32 = 64;

/// The bits of the single-precision float one.
pub const ONE: u32 = 0x3F80_0000;

/// 32-bit words as bytes, low byte first.
pub open spec fn word_bytes(words: Seq<u32>) -> Seq<u8>
    decreases words.len(),
{
    if words.len() == 0 {
        Seq::empty()
    } else {
        word_bytes(words.drop_last()) + crate::bytes::le32(words.last() as int)
    }
}

/// Words as bytes, for a buffer.
pub fn words_to_bytes(words: &[u32]) -> (out: Vec<u8>)
    ensures
        out@ == word_bytes(words@),
{
    let mut out: Vec<u8> = Vec::new();
    let mut i: usize = 0;
    assert(words@.take(0) =~= Seq::empty());
    while i < words.len()
        invariant
            i <= words@.len(),
            out@ == word_bytes(words@.take(i as int)),
        decreases words@.len() - i,
    {
        assert(words@.take(i + 1).drop_last() =~= words@.take(i as int));
        push_le32(&mut out, words[i]);
        i = i + 1;
    }
    assert(words@.take(i as int) =~= words@);
    out
}

/// Little-endian byte pusher.
pub struct Words {
    bytes: Vec<u8>,
}

impl View for Words {
    type V = Seq<u8>;

    closed spec fn view(&self) -> Seq<u8> {
        self.bytes@
    }
}

impl Words {
    pub fn new() -> (words: Words)
        ensures
            words@ == Seq::<u8>::empty(),
    {
        Words { bytes: Vec::new() }
    }

    pub fn u32(&mut self, value: u32)
        ensures
            final(self)@ == old(self)@ + crate::bytes::le32(value as int),
    {
        push_le32(&mut self.bytes, value);
    }

    /// A float, by its bits.
    pub fn float(&mut self, bits: u32)
        ensures
            final(self)@ == old(self)@ + crate::bytes::le32(bits as int),
    {
        push_le32(&mut self.bytes, bits);
    }

    /// Brings the bytes to `length`: padded with zeros, or cut.
    pub fn pad_to(&mut self, length: usize)
        ensures
            final(self)@ == if old(self)@.len() <= length {
                old(self)@ + crate::bytes::zeros((length - old(self)@.len()) as nat)
            } else {
                old(self)@.take(length as int)
            },
    {
        if self.bytes.len() <= length {
            let missing: usize = length - self.bytes.len();
            crate::bytes::push_zeros(&mut self.bytes, missing);
        } else {
            self.bytes.truncate(length);
            assert(self@ =~= old(self)@.take(length as int));
        }
    }

    pub fn into_bytes(self) -> (bytes: Vec<u8>)
        ensures
            bytes@ == self@,
    {
        self.bytes
    }
}

/// One stage of the transform: `span` is how far the transform has come before it.
#[derive(Clone, Copy, Debug, PartialEq, Eq, Structural)]
pub struct Stage {
    pub radix: u32,
    pub span: u32,
    pub threads: u32,
}

pub open spec fn stage_of(l: u32, radix: u32, span: u32) -> Stage {
    Stage { radix, span, threads: l / radix }
}

/// The radix-4 stages from `span` on.
pub open spec fn fours_from(l: u32, span: int) -> Seq<Stage>
    decreases
            (if span < l {
                l - span
            } else {
                0
            }),
{
    if span <= 0 || span >= l {
        Seq::empty()
    } else {
        seq![stage_of(l, 4, span as u32)] + fours_from(l, 4 * span)
    }
}

/// The stages of a transform of 2^`log2` points.
pub open spec fn schedule_of(l: u32, log2: nat) -> Seq<Stage> {
    if log2 % 2 == 1 {
        seq![stage_of(l, 2, 1)] + fours_from(l, 2)
    } else {
        fours_from(l, 1)
    }
}

/// The product of the radices of some stages.
pub open spec fn reach(stages: Seq<Stage>) -> int
    decreases stages.len(),
{
    if stages.len() == 0 {
        1
    } else {
        stages[0].radix * reach(stages.skip(1))
    }
}

/// Radix-4 stages multiply what is done by four until everything is done.
proof fn lemma_fours(l: u32, log2: nat, done: nat)
    requires
        l == pow2(log2),
        done <= log2,
        (log2 - done) % 2 == 0,
    ensures
        pow2(done) * reach(fours_from(l, pow2(done) as int)) == l,
        fours_from(l, pow2(done) as int).len() == (log2 - done) / 2,
    decreases log2 - done,
{
    lemma_pow2_pos(done);
    if done < log2 {
        lemma_pow2_strictly_increases(done, log2);
        lemma_pow2_unfold(done + 1);
        lemma_pow2_unfold(done + 2);
        lemma_fours(l, log2, done + 2);
        let span = pow2(done) as int;
        let stages = fours_from(l, span);
        let rest = fours_from(l, 4 * span);
        assert(stages.skip(1) =~= rest);
        assert(pow2(done) * (4 * reach(rest)) == pow2(done + 2) * reach(rest)) by (nonlinear_arith)
            requires
                pow2(done + 2) == 4 * pow2(done),
        ;
    } else {
        assert(pow2(done) * 1 == pow2(done)) by (nonlinear_arith);
    }
}

/// The stages together reach the whole transform: their radices multiply to its length, there is
/// one for every two powers of two, rounded up, and they fit the parameter buffer.
pub proof fn law_the_stages_cover_the_transform(l: u32, log2: nat)
    requires
        l == pow2(log2),
    ensures
        reach(schedule_of(l, log2)) == l,
        schedule_of(l, log2).len() == (log2 + 1) / 2,
        schedule_of(l, log2).len() <= MAX_STAGES,
{
    lemma2_to64();
    if log2 >= 32 {
        if log2 > 32 {
            lemma_pow2_strictly_increases(32, log2);
        }
    }
    if log2 % 2 == 1 {
        lemma_fours(l, log2, 1);
        assert(schedule_of(l, log2).skip(1) =~= fours_from(l, 2));
        assert(pow2(1) == 2);
    } else {
        lemma_fours(l, log2, 0);
        assert(pow2(0) == 1);
        assert(pow2(0) * reach(fours_from(l, 1)) == reach(fours_from(l, 1))) by (nonlinear_arith)
            requires
                pow2(0) == 1,
        ;
    }
}

/// The stages of a transform of `l` points.
pub fn schedule(l: u32) -> (stages: Vec<Stage>)
    requires
        exists|log2: nat| l == pow2(log2),
    ensures
        forall|log2: nat| l == #[trigger] pow2(log2) ==> stages@ == schedule_of(l, log2),
{
    let ghost log2 = choose|log2: nat| l == pow2(log2);
    let mut stages: Vec<Stage> = Vec::new();
    let mut odd: bool = false;
    let mut power: u64 = 1;
    let ghost mut k: nat = 0;
    proof {
        lemma2_to64();
        lemma_pow2_pos(log2);
    }
    while power < l as u64
        invariant
            power == pow2(k),
            0 < power <= l,
            l == pow2(log2),
            k <= log2,
            odd == (k % 2 == 1),
        decreases l - power,
    {
        proof {
            if k == log2 {
                assert(false);
            }
            lemma_pow2_unfold(k + 1);
            if k + 1 < log2 {
                lemma_pow2_strictly_increases(k + 1, log2);
            }
            k = k + 1;
        }
        power = power * 2;
        odd = !odd;
    }
    proof {
        if k < log2 {
            lemma_pow2_strictly_increases(k, log2);
        }
    }
    let mut span: u64 = 1;
    if odd {
        stages.push(Stage { radix: 2, span: 1, threads: l / 2 });
        span = 2;
    }
    let ghost target = schedule_of(l, log2);
    assert(target =~= stages@ + fours_from(l, span as int));
    while span < l as u64
        invariant
            0 < span < 0x4_0000_0000,
            target == stages@ + fours_from(l, span as int),
        decreases l + 0x4_0000_0000 - span,
    {
        stages.push(Stage { radix: 4, span: span as u32, threads: l / 4 });
        assert(target =~= stages@ + fours_from(l, 4 * span as int));
        span = span * 4;
    }
    assert(stages@ + fours_from(l, span as int) =~= stages@);
    assert forall|other: nat| l == #[trigger] pow2(other) implies stages@ == schedule_of(
        l,
        other,
    ) by {
        if other < log2 {
            lemma_pow2_strictly_increases(other, log2);
        } else if log2 < other {
            lemma_pow2_strictly_increases(log2, other);
        }
    }
    stages
}

/// Where the result of a schedule ends up: stages go back and forth between two buffers, so after
/// an even number of them it is back in the first.
pub fn result_in_first(stages: usize) -> (first: bool)
    ensures
        first == (stages % 2 == 0),
{
    stages % 2 == 0
}

/// The parameters of one stage of a transform of `l` points: how far it has come, the step between
/// twiddles, and how many threads it runs.
pub open spec fn stage_words(l: u32, stage: Stage) -> Seq<u32> {
    seq![
        l,
        stage.span,
        if stage.radix == 2 {
            l / stage.span
        } else {
            (l as int / (2 * stage.span)) as u32
        },
        stage.threads,
        1,
        (2 * l - 1) as u32,
        stage.threads,
        0,
    ]
}

/// The parameters of all stages, each padded to the stride.
pub open spec fn stages_bytes(l: u32, stages: Seq<Stage>) -> Seq<u8>
    decreases stages.len(),
{
    if stages.len() == 0 {
        Seq::empty()
    } else {
        stages_bytes(l, stages.drop_last()) + word_bytes(stage_words(l, stages.last()))
            + crate::bytes::zeros(224)
    }
}

proof fn lemma_eight_words(words: Seq<u32>)
    requires
        words.len() == 8,
    ensures
        word_bytes(words).len() == 32,
        word_bytes(words) == crate::bytes::le32(words[0] as int) + crate::bytes::le32(
            words[1] as int,
        ) + crate::bytes::le32(words[2] as int) + crate::bytes::le32(words[3] as int)
            + crate::bytes::le32(words[4] as int) + crate::bytes::le32(words[5] as int)
            + crate::bytes::le32(words[6] as int) + crate::bytes::le32(words[7] as int),
{
    let none = Seq::<u8>::empty();
    assert(words.take(0) =~= Seq::empty());
    assert(word_bytes(words.take(0)) == none);
    assert(words.take(1).drop_last() =~= words.take(0));
    assert(word_bytes(words.take(1)) == word_bytes(words.take(0)) + crate::bytes::le32(words[0] as int));
    assert(words.take(2).drop_last() =~= words.take(1));
    assert(word_bytes(words.take(2)) == word_bytes(words.take(1)) + crate::bytes::le32(words[1] as int));
    assert(words.take(3).drop_last() =~= words.take(2));
    assert(word_bytes(words.take(3)) == word_bytes(words.take(2)) + crate::bytes::le32(words[2] as int));
    assert(words.take(4).drop_last() =~= words.take(3));
    assert(word_bytes(words.take(4)) == word_bytes(words.take(3)) + crate::bytes::le32(words[3] as int));
    assert(words.take(5).drop_last() =~= words.take(4));
    assert(word_bytes(words.take(5)) == word_bytes(words.take(4)) + crate::bytes::le32(words[4] as int));
    assert(words.take(6).drop_last() =~= words.take(5));
    assert(word_bytes(words.take(6)) == word_bytes(words.take(5)) + crate::bytes::le32(words[5] as int));
    assert(words.take(7).drop_last() =~= words.take(6));
    assert(word_bytes(words.take(7)) == word_bytes(words.take(6)) + crate::bytes::le32(words[6] as int));
    assert(words.take(8).drop_last() =~= words.take(7));
    assert(word_bytes(words.take(8)) == word_bytes(words.take(7)) + crate::bytes::le32(words[7] as int));
    assert(words.take(8) =~= words);
    assert(none + crate::bytes::le32(words[0] as int) =~= crate::bytes::le32(words[0] as int));
}

/// The parameters of a whole schedule, for the uniform buffer.
pub fn stage_params(l: u32, stages: &Vec<Stage>) -> (out: Vec<u8>)
    requires
        0 < l <= 0x8000_0000,
        forall|i: int|
            0 <= i < stages@.len() ==> 0 < (#[trigger] stages@[i]).span <= 0x4000_0000,
    ensures
        out@ == stages_bytes(l, stages@),
{
    let mut out: Vec<u8> = Vec::new();
    let mut i: usize = 0;
    assert(stages@.take(0) =~= Seq::empty());
    while i < stages.len()
        invariant
            i <= stages@.len(),
            0 < l <= 0x8000_0000,
            forall|i: int|
                0 <= i < stages@.len() ==> 0 < (#[trigger] stages@[i]).span <= 0x4000_0000,
            out@ == stages_bytes(l, stages@.take(i as int)),
        decreases stages@.len() - i,
    {
        let stage = stages[i];
        let unit: u32 = if stage.radix == 2 {
            l / stage.span
        } else {
            l / (2 * stage.span)
        };
        assert(stages@.take(i + 1).drop_last() =~= stages@.take(i as int));
        let mut words = Words::new();
        words.u32(l);
        words.u32(stage.span);
        words.u32(unit);
        words.u32(stage.threads);
        words.u32(1);
        words.u32(2 * (l - 1) + 1);
        words.u32(stage.threads);
        words.u32(0);
        proof {
            lemma_eight_words(stage_words(l, stage));
            assert(words@ =~= word_bytes(stage_words(l, stage)));
        }
        words.pad_to(STAGE_STRIDE);
        let mut bytes = words.into_bytes();
        out.append(&mut bytes);
        i = i + 1;
        assert(out@ =~= stages_bytes(l, stages@.take(i as int)));
    }
    assert(stages@.take(i as int) =~= stages@);
    out
}

/// The parameters of the packing pass: one frame, one channel, one window, mixed from the first
/// plane alone.
pub open spec fn prepare_words(n: u32) -> Seq<u32> {
    let l = n / 2;
    seq![n, l, n, 0, 1, 1, 1, n, 1, l, 0, 0, ONE, 0, 0, 0, ONE, 0, 0, 0]
}

pub fn prepare_params(n: u32) -> (out: Vec<u8>)
    ensures
        out@ == word_bytes(prepare_words(n)),
{
    let l: u32 = n / 2;
    let words: [u32; 20] = [n, l, n, 0, 1, 1, 1, n, 1, l, 0, 0, ONE, 0, 0, 0, ONE, 0, 0, 0];
    assert(words@ =~= prepare_words(n));
    words_to_bytes(&words)
}

/// The parameters of the unpacking pass, padded to 32 bytes.
pub open spec fn unpack_words(n: u32) -> Seq<u32> {
    let l = n / 2;
    seq![l, n, 0, (l + 1) as u32, 0, 0, 0, 0]
}

pub fn unpack_params(n: u32) -> (out: Vec<u8>)
    ensures
        out@ == word_bytes(unpack_words(n)),
{
    let l: u32 = n / 2;
    let words: [u32; 8] = [l, n, 0, l + 1, 0, 0, 0, 0];
    assert(words@ =~= unpack_words(n));
    words_to_bytes(&words)
}

/// Workgroups that `threads` threads need.
pub fn groups(threads: u32) -> (groups: u32)
    ensures
        groups == (threads + WORKGROUP - 1) / (WORKGROUP as int),
{
    let whole: u32 = threads / WORKGROUP;
    if threads % WORKGROUP == 0 {
        whole
    } else {
        whole + 1
    }
}

/// Bytes that the buffers of a transform of `n` samples take.
#[derive(Clone, Copy, Debug, PartialEq, Eq, Structural)]
pub struct Sizes {
    pub samples: u64,
    pub twiddles: u64,
    pub complex: u64,
    pub bins: u64,
    pub stages: u64,
}

/// Samples and windows are real and the twiddles complex, all `n` of them; a transform works on
/// `n / 2` complex values, and gives one bin more than that: DC through Nyquist inclusive.
pub fn sizes(n: u32) -> (sizes: Sizes)
    ensures
        sizes == (Sizes {
            samples: (n * 4) as u64,
            twiddles: (n * 8) as u64,
            complex: (n / 2 * 8) as u64,
            bins: ((n / 2 + 1) * 8) as u64,
            stages: (STAGE_STRIDE * MAX_STAGES) as u64,
        }),
{
    let n: u64 = n as u64;
    Sizes {
        samples: n * 4,
        twiddles: n * 8,
        complex: n / 2 * 8,
        bins: (n / 2 + 1) * 8,
        stages: 5120,
    }
}

/// Complex values, each as the bits of its two floats, from the bytes of a buffer.
pub open spec fn pairs_of(bytes: Seq<u8>) -> Seq<(u32, u32)> {
    Seq::new(
        bytes.len() / 8,
        |i: int|
            (
                crate::bytes::read_le32(bytes, 8 * i) as u32,
                crate::bytes::read_le32(bytes, 8 * i + 4) as u32,
            ),
    )
}

/// The word at `at` of some bytes.
pub fn word_at(bytes: &[u8], at: usize) -> (word: u32)
    requires
        at + 4 <= bytes@.len(),
    ensures
        word == crate::bytes::read_le32(bytes@, at as int),
{
    bytes[at] as u32 + bytes[at + 1] as u32 * 256 + bytes[at + 2] as u32 * 65536 + bytes[at
        + 3] as u32 * 16777216
}

/// Reads the bins of a spectrum back.
pub fn pairs(bytes: &[u8]) -> (out: Vec<(u32, u32)>)
    ensures
        out@ == pairs_of(bytes@),
{
    let count: usize = bytes.len() / 8;
    let mut out: Vec<(u32, u32)> = Vec::new();
    let mut i: usize = 0;
    while i < count
        invariant
            i <= count,
            count == bytes@.len() / 8,
            8 * count <= bytes@.len() <= usize::MAX,
            out@.len() == i,
            forall|k: int| 0 <= k < i ==> #[trigger] out@[k] == pairs_of(bytes@)[k],
        decreases count - i,
    {
        out.push((word_at(bytes, 8 * i), word_at(bytes, 8 * i + 4)));
        i = i + 1;
    }
    assert(out@ =~= pairs_of(bytes@));
    out
}

} // verus!
