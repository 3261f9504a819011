//! What becomes of a sample on its way into a file.
use crate::wav::{Depth, WavMeta, WavSpec};
use vstd::arithmetic::div_mod::*;
use vstd::arithmetic::power2::*;
use vstd::prelude::*;

verus! {

/// A number that a reader takes for a signed one of `width` bytes, low byte first.
pub open spec fn signed(bytes: Seq<u8>, at: int, width: int) -> int {
    if width == 2 {
        let raw = bytes[at] + 0x100 * bytes[at + 1];
        if raw < 0x8000 {
            raw
        } else {
            raw - 0x1_0000
        }
    } else {
        let raw = bytes[at] + 0x100 * bytes[at + 1] + 0x1_0000 * bytes[at + 2];
        if raw < 0x80_0000 {
            raw
        } else {
            raw - 0x100_0000
        }
    }
}

proof fn lemma_sample_index(planes: nat, frames: nat, frame: int, channel: int)
    requires
        0 <= frame < frames,
        0 <= channel < planes,
    ensures
        0 <= frame * planes + channel < frames * planes,
{
    assert(0 <= frame * planes + channel && frame * planes + channel < frames * planes)
        by (nonlinear_arith)
        requires
            0 <= frame < frames,
            0 <= channel < planes,
    ;
}

/// A float file holds every sample of every plane bit for bit, the planes side by side frame by
/// frame, and nothing else.
pub proof fn law_a_float_file_holds_every_sample(
    planes: Seq<Seq<u32>>,
    spec: WavSpec,
    meta: WavMeta,
    frame: int,
    channel: int,
)
    requires
        spec.depth == Depth::F32,
        crate::wav::file_bytes(planes, spec, meta).len() < 0x1_0000_0000,
        0 <= channel < planes.len(),
        0 <= frame < planes[0].len(),
    ensures
        crate::wav::find(
            crate::wav::file_bytes(planes, spec, meta),
            12,
            seq![0x64u8, 0x61, 0x74, 0x61],
        ) matches Some(data) && data.len() == 4 * (planes[0].len() * planes.len())
            && crate::laws::bytes::word32(data, 4 * (frame * planes.len() + channel))
            == planes[channel][frame],
{
    let total = planes[0].len() * planes.len();
    lemma_sample_index(planes.len(), planes[0].len(), frame, channel);
    crate::wav::law_float_samples_round_trip(planes, spec, total, frame, channel);
    assert(crate::wav::data_id() =~= seq![0x64u8, 0x61, 0x74, 0x61]);
    crate::wav::law_every_chunk_is_found(planes, spec, meta);
}

/// Noise made of two draws: their sum less one. The sum is brought to a double first, so where it
/// takes 54 bits it is even, and of two that are as near the multiple of four.
pub open spec fn is_noise(amount: int, a: int, b: int) -> bool {
    let sum = a + b;
    let kept = amount + 0x20_0000_0000_0000;
    if sum <= 0x20_0000_0000_0000 || sum % 2 == 0 {
        kept == sum
    } else {
        kept % 4 == 0 && (kept == sum - 1 || kept == sum + 1)
    }
}

/// What a file holds for its `n`th sample, as a signed integer of `width` bytes: the sample
/// quantised on its own where there is no dither, and otherwise with noise that is the sum of two
/// draws of its own, less one.
pub open spec fn holds_sample(data: Seq<u8>, width: int, n: nat, sample: u32, spec: WavSpec) -> bool {
    let value = signed(data, width * n, width);
    if spec.dither {
        let a = crate::wav::draw(spec.dither_seed, 2 * n);
        let b = crate::wav::draw(spec.dither_seed, 2 * n + 1);
        exists|amount: i64|
            is_noise(amount as int, a, b) && value == #[trigger] crate::quantise::quantised(
                sample,
                8 * width - 1,
                Some(amount),
            )
    } else {
        value == crate::quantise::quantised(sample, 8 * width - 1, None)
    }
}

proof fn lemma_integer_sample(
    planes: Seq<Seq<u32>>,
    spec: WavSpec,
    total: nat,
    frame: int,
    channel: int,
)
    requires
        spec.depth != Depth::F32,
        0 <= channel < planes.len(),
        0 <= frame,
        0 <= frame * planes.len() + channel < total,
    ensures
        ({
            let width = if spec.depth == Depth::I24 {
                3int
            } else {
                2
            };
            holds_sample(
                crate::wav::samples_bytes(planes, spec, total),
                width,
                (frame * planes.len() + channel) as nat,
                planes[channel][frame],
                spec,
            )
        }),
{
    let width = if spec.depth == Depth::I24 {
        3int
    } else {
        2
    };
    let n = (frame * planes.len() + channel) as nat;
    let data = crate::wav::samples_bytes(planes, spec, total);
    crate::reading::law_integer_samples_read_back(planes, spec, total, frame, channel);
    assert(signed(data, width * n, width) == crate::reading::read_integer(data, width * n, width));
    if spec.dither {
        let a = crate::wav::draw(spec.dither_seed, 2 * n);
        let b = crate::wav::draw(spec.dither_seed, 2 * n + 1);
        law_a_draw_is_the_top_of_its_state(spec.dither_seed, 2 * n);
        law_a_draw_is_the_top_of_its_state(spec.dither_seed, 2 * n + 1);
        law_noise_is_two_draws_less_one(a, b);
        let amount = crate::wav::triangular(a, b) as i64;
        assert(crate::wav::noise_of(spec, n) == Some(amount));
        assert(signed(data, width * n, width) == crate::quantise::quantised(
            planes[channel][frame],
            8 * width - 1,
            Some(amount),
        ));
    }
}

/// An integer file holds every sample of every plane as a signed integer, the planes side by side
/// frame by frame, and nothing else.
pub proof fn law_an_integer_file_holds_every_sample(
    planes: Seq<Seq<u32>>,
    spec: WavSpec,
    meta: WavMeta,
    frame: int,
    channel: int,
)
    requires
        spec.depth != Depth::F32,
        crate::wav::file_bytes(planes, spec, meta).len() < 0x1_0000_0000,
        0 <= channel < planes.len(),
        0 <= frame < planes[0].len(),
    ensures
        ({
            let width = if spec.depth == Depth::I24 {
                3int
            } else {
                2
            };
            crate::wav::find(
                crate::wav::file_bytes(planes, spec, meta),
                12,
                seq![0x64u8, 0x61, 0x74, 0x61],
            ) matches Some(data) && data.len() == planes[0].len() * planes.len() * width
                && holds_sample(
                data,
                width,
                (frame * planes.len() + channel) as nat,
                planes[channel][frame],
                spec,
            )
        }),
{
    let total = planes[0].len() * planes.len();
    lemma_sample_index(planes.len(), planes[0].len(), frame, channel);
    lemma_integer_sample(planes, spec, total, frame, channel);
    crate::wav::law_samples_fill_their_blocks(planes, spec, total);
    assert(crate::wav::data_id() =~= seq![0x64u8, 0x61, 0x74, 0x61]);
    crate::wav::law_every_chunk_is_found(planes, spec, meta);
}

/// Dither is reproducible: one seed gives one sequence, each state follows from the one before it,
/// and it begins odd at the seed or right above it.
pub proof fn law_a_seed_gives_one_sequence(seed: u64, n: nat)
    ensures
        crate::wav::lcg_state(seed, 0) % 2 == 1,
        seed <= crate::wav::lcg_state(seed, 0) <= seed + 1,
        crate::wav::lcg_state(seed, n + 1) as int == (crate::wav::lcg_state(seed, n)
            * 6364136223846793005 + 1442695040888963407) % 0x1_0000_0000_0000_0000,
{
    let state = crate::wav::lcg_state(seed, n);
    let product = state * 6364136223846793005;
    let low = product % 0x1_0000_0000_0000_0000;
    assert(crate::wav::lcg_state(seed, n + 1) == crate::wav::lcg_step(state));
    assert(state.wrapping_mul(6364136223846793005) as int == low);
    lemma_add_mod_noop(product, 1442695040888963407, 0x1_0000_0000_0000_0000);
    assert((low + 1442695040888963407) % 0x1_0000_0000_0000_0000 == (product
        + 1442695040888963407) % 0x1_0000_0000_0000_0000);
}

/// A draw is the top 53 bits of the state it is made from.
pub proof fn law_a_draw_is_the_top_of_its_state(seed: u64, n: nat)
    ensures
        0 <= crate::wav::draw(seed, n) < 0x20_0000_0000_0000,
        2048 * crate::wav::draw(seed, n) <= crate::wav::lcg_state(seed, n + 1) < 2048
            * crate::wav::draw(seed, n) + 2048,
{
}

/// Noise is the sum of two draws less one, to the last bit of a double.
pub proof fn law_noise_is_two_draws_less_one(a: int, b: int)
    requires
        0 <= a < 0x20_0000_0000_0000,
        0 <= b < 0x20_0000_0000_0000,
    ensures
        is_noise(crate::wav::triangular(a, b), a, b),
        -0x20_0000_0000_0000 <= crate::wav::triangular(a, b) < 0x20_0000_0000_0000,
{
    let sum = a + b;
    let near = crate::quantise::nearest_double(sum);
    crate::quantise::lemma_nearest_of_54_bits(sum as nat);
    let less = near - 0x20_0000_0000_0000;
    if less >= 0 {
        crate::quantise::lemma_nearest_of_54_bits(less as nat);
    } else {
        crate::quantise::lemma_nearest_of_54_bits((-less) as nat);
    }
}

/// A double is within half a unit of its last place: what is brought to one moves by no more than
/// one part in 2^53, and not at all below that.
pub proof fn law_a_double_is_near(n: int)
    ensures
        -0x20_0000_0000_0000 < n < 0x20_0000_0000_0000 ==> crate::quantise::nearest_double(n) == n,
        n >= 0 ==> -n <= 0x20_0000_0000_0000 * (crate::quantise::nearest_double(n) - n) <= n,
        n <= 0 ==> n <= 0x20_0000_0000_0000 * (crate::quantise::nearest_double(n) - n) <= -n,
{
    let m: nat = if n >= 0 {
        n as nat
    } else {
        (-n) as nat
    };
    lemma_excess(m);
    let grid = pow2(crate::quantise::excess(m)) as int;
    lemma_pow2_pos(crate::quantise::excess(m));
    let below = m as int / grid;
    let rest = m as int % grid;
    let near = crate::quantise::nearest_magnitude(m) as int;
    lemma_fundamental_div_mod(m as int, grid);
    assert((below + 1) * grid == below * grid + grid) by (nonlinear_arith);
    assert(grid * below == below * grid) by (nonlinear_arith);
    assert(-grid <= 2 * (near - m) <= grid);
    lemma2_to64();
    if crate::quantise::excess(m) == 0 {
        assert(grid == 1);
        assert(near == m);
    }
}

/// Where two doubles are as near, the even one is taken: what is kept is a multiple of the grid, no
/// farther than half of it, and an even multiple where it is exactly that far. The grid is the power
/// of two that leaves 53 bits. What is negative is brought to a double like what is positive.
pub proof fn law_a_double_is_even_on_a_tie(n: nat) -> (grid: int)
    ensures
        grid >= 1,
        exists|k: nat| grid == #[trigger] pow2(k),
        grid == 1 || 0x10_0000_0000_0000 * grid <= n,
        n < 0x20_0000_0000_0000 * grid,
        crate::quantise::nearest_double(-(n as int)) == -crate::quantise::nearest_double(n as int),
        crate::quantise::nearest_double(n as int) % grid == 0,
        -grid <= 2 * (crate::quantise::nearest_double(n as int) - n) <= grid,
        2 * (crate::quantise::nearest_double(n as int) - n) == grid || 2 * (
        crate::quantise::nearest_double(n as int) - n) == -grid ==> (
        crate::quantise::nearest_double(n as int) / grid) % 2 == 0,
{
    let grid = pow2(crate::quantise::excess(n)) as int;
    lemma_excess(n);
    lemma_pow2_pos(crate::quantise::excess(n));
    lemma2_to64();
    let below = n as int / grid;
    let rest = n as int % grid;
    let near = crate::quantise::nearest_double(n as int);
    lemma_fundamental_div_mod(n as int, grid);
    assert((below + 1) * grid == below * grid + grid) by (nonlinear_arith);
    assert(grid * below == below * grid) by (nonlinear_arith);
    let kept = if near == below * grid {
        below
    } else {
        below + 1
    };
    assert(near == kept * grid + 0);
    assert(kept * grid == grid * kept) by (nonlinear_arith);
    lemma_fundamental_div_mod_converse(near, grid, kept, 0);
    grid
}

/// What a double drops is small against what it keeps.
proof fn lemma_excess(n: nat)
    ensures
        crate::quantise::excess(n) > 0 ==> 0x10_0000_0000_0000 * pow2(
            crate::quantise::excess(n),
        ) <= n,
        n < 0x20_0000_0000_0000 * pow2(crate::quantise::excess(n)),
        crate::quantise::excess(n) == 0 <==> n < 0x20_0000_0000_0000,
    decreases n,
{
    lemma2_to64();
    if n >= 0x20_0000_0000_0000 {
        lemma_excess(n / 2);
        lemma_pow2_unfold(crate::quantise::excess(n));
    }
}

/// A float is its sign, its significand and its exponent: scaled by a power of two it is exact.
pub proof fn law_a_float_is_read_for_what_it_is(
    bits: u32,
    negative: bool,
    exponent: int,
    fraction: int,
    width: int,
)
    requires
        width == 15 || width == 23,
        0 <= exponent < 255,
        0 <= fraction < 0x80_0000,
        bits == (if negative {
            0x8000_0000int
        } else {
            0
        }) + 0x80_0000 * exponent + fraction,
    ensures
        ({
            let magnitude = if exponent == 0 {
                fraction * pow2((width + 51) as nat)
            } else {
                (0x80_0000 + fraction) * pow2((exponent + width + 50) as nat)
            };
            crate::quantise::scaled(bits, width) == if negative {
                -magnitude
            } else {
                magnitude
            }
        }),
{
    assert(bits as int / 0x80_0000 == (if negative {
        256int
    } else {
        0
    }) + exponent);
}

/// A whole number nearest to `n` units of which `one` make a whole, the one farther from zero where
/// two are as near.
proof fn lemma_rounded(n: int, one: int)
    requires
        one > 0,
    ensures
        ({
            let q = crate::quantise::rounded(n, one);
            &&& -one <= 2 * (q * one - n) <= one
            &&& 2 * (q * one - n) == -one ==> n < 0
            &&& 2 * (q * one - n) == one ==> n > 0
        }),
{
    let m = if n >= 0 {
        n
    } else {
        -n
    };
    let q = (2 * m + one) / (2 * one);
    lemma_fundamental_div_mod(2 * m + one, 2 * one);
    lemma_mod_bound(2 * m + one, 2 * one);
    assert((2 * one) * q == 2 * (q * one)) by (nonlinear_arith);
    assert((-q) * one == -(q * one)) by (nonlinear_arith);
    assert(2 * (q * one) != one) by (nonlinear_arith)
        requires
            one > 0,
    ;
}

/// A sample that is a number becomes the whole number nearest to it, with one at the full negative
/// range and halves away from zero; what does not fit becomes the end that it lies beyond.
pub proof fn law_a_sample_becomes_the_nearest_step(bits: u32, width: int)
    requires
        width == 15 || width == 23,
        bits as int % 0x8000_0000 < 0x7F80_0000,
    ensures
        ({
            let exact = crate::quantise::scaled(bits, width);
            let one = pow2(200) as int;
            let full = pow2(width as nat) as int;
            let q = crate::quantise::quantised(bits, width, None);
            &&& -full <= q < full
            &&& -full * one <= exact <= (full - 1) * one ==> {
                &&& -one <= 2 * (q * one - exact) <= one
                &&& 2 * (q * one - exact) == -one ==> exact < 0
                &&& 2 * (q * one - exact) == one ==> exact > 0
            }
            &&& exact >= (full - 1) * one ==> q == full - 1
            &&& exact <= -full * one ==> q == -full
        }),
{
    let exact = crate::quantise::scaled(bits, width);
    let one = pow2(200) as int;
    let full = pow2(width as nat) as int;
    lemma_pow2_pos(200);
    lemma_pow2_pos(width as nat);
    let whole = crate::quantise::rounded(exact, one);
    lemma_rounded(exact, one);
    assert((bits as int / 0x80_0000) % 256 != 255);
    if exact >= (full - 1) * one {
        assert(whole >= full - 1) by (nonlinear_arith)
            requires
                2 * (whole * one - exact) >= -one,
                exact >= (full - 1) * one,
                one > 0,
        ;
    }
    if exact <= -full * one {
        assert(whole <= -full) by (nonlinear_arith)
            requires
                2 * (whole * one - exact) <= one,
                exact <= -full * one,
                one > 0,
        ;
    }
    if -full * one <= exact <= (full - 1) * one {
        assert(-full <= whole <= full - 1) by (nonlinear_arith)
            requires
                -one <= 2 * (whole * one - exact) <= one,
                -full * one <= exact <= (full - 1) * one,
                2 * (whole * one - exact) == -one ==> exact < 0,
                2 * (whole * one - exact) == one ==> exact > 0,
                one > 0,
                full > 0,
        ;
    }
}

/// A dithered sample is the whole number nearest to the exact sum of sample and noise, but for what
/// the sum loses as a double.
pub proof fn law_dither_is_added_before_rounding(bits: u32, width: int, amount: i64)
    requires
        width == 15 || width == 23,
        bits as int % 0x8000_0000 < 0x7F80_0000,
    ensures
        ({
            let exact = crate::quantise::scaled(bits, width) + amount * pow2(147);
            let sum = crate::quantise::nearest_double(exact);
            let one = pow2(200) as int;
            let full = pow2(width as nat) as int;
            let q = crate::quantise::quantised(bits, width, Some(amount));
            &&& -full <= q < full
            &&& -full * one <= sum <= (full - 1) * one ==> {
                &&& -one <= 2 * (q * one - sum) <= one
                &&& 2 * (q * one - sum) == -one ==> sum < 0
                &&& 2 * (q * one - sum) == one ==> sum > 0
            }
            &&& sum >= (full - 1) * one ==> q == full - 1
            &&& sum <= -full * one ==> q == -full
        }),
{
    let sum = crate::quantise::nearest_double(
        crate::quantise::scaled(bits, width) + amount * pow2(147),
    );
    let one = pow2(200) as int;
    let full = pow2(width as nat) as int;
    lemma_pow2_pos(200);
    lemma_pow2_pos(width as nat);
    let whole = crate::quantise::rounded(sum, one);
    lemma_rounded(sum, one);
    assert((bits as int / 0x80_0000) % 256 != 255);
    if sum >= (full - 1) * one {
        assert(whole >= full - 1) by (nonlinear_arith)
            requires
                2 * (whole * one - sum) >= -one,
                sum >= (full - 1) * one,
                one > 0,
        ;
    }
    if sum <= -full * one {
        assert(whole <= -full) by (nonlinear_arith)
            requires
                2 * (whole * one - sum) <= one,
                sum <= -full * one,
                one > 0,
        ;
    }
    if -full * one <= sum <= (full - 1) * one {
        assert(-full <= whole <= full - 1) by (nonlinear_arith)
            requires
                -one <= 2 * (whole * one - sum) <= one,
                -full * one <= sum <= (full - 1) * one,
                2 * (whole * one - sum) == -one ==> sum < 0,
                2 * (whole * one - sum) == one ==> sum > 0,
                one > 0,
                full > 0,
        ;
    }
}

/// What is not a number is silence, and what is infinite is as loud as it gets, on its own side,
/// with dither or without.
pub proof fn law_what_is_no_number_is_silence(bits: u32, width: int, noise: Option<i64>)
    requires
        width == 15 || width == 23,
    ensures
        bits as int % 0x8000_0000 > 0x7F80_0000 ==> crate::quantise::quantised(bits, width, noise)
            == 0,
        bits == 0x7F80_0000 ==> crate::quantise::quantised(bits, width, noise) == pow2(width as nat)
            - 1,
        bits == 0xFF80_0000 ==> crate::quantise::quantised(bits, width, noise) == -(pow2(
            width as nat,
        ) as int),
{
    if bits as int % 0x8000_0000 > 0x7F80_0000 {
        assert((bits as int / 0x80_0000) % 256 == 255);
        assert(bits as int % 0x80_0000 != 0);
    }
}

} // verus!
