//! Quantising samples, in integers.
//!
//! A sample is held as the bits of a single-precision float. Bringing it to an integer depth means
//! scaling it by a power of two, adding dither in double precision, and rounding. All of that is
//! exact integer work once the double-precision sum is described as what it is: the exact sum,
//! brought to 53 significant bits.
use vstd::arithmetic::div_mod::*;
use vstd::arithmetic::power2::*;
use vstd::prelude::*;

verus! {

/// How many low bits of `n` do not fit into the 53 bits of a double's significand.
pub open spec fn excess(n: nat) -> nat
    decreases n,
{
    if n < 0x20_0000_0000_0000 {
        0
    } else {
        1 + excess(n / 2)
    }
}

/// `n` brought to 53 significant bits: the nearest multiple of its grid, the even one on a tie.
pub open spec fn nearest_magnitude(n: nat) -> nat {
    let grid = pow2(excess(n));
    let below = n / grid;
    let rest = n % grid;
    if 2 * rest > grid || (2 * rest == grid && below % 2 == 1) {
        (below + 1) * grid
    } else {
        below * grid
    }
}

/// The double nearest to `n`, whatever power of two `n` counts.
pub open spec fn nearest_double(n: int) -> int {
    if n >= 0 {
        nearest_magnitude(n as nat) as int
    } else {
        -(nearest_magnitude((-n) as nat) as int)
    }
}

/// `n`, counted in units of which `one` make a whole, rounded to whole numbers, halves away from
/// zero.
pub open spec fn rounded(n: int, one: int) -> int {
    if n >= 0 {
        (2 * n + one) / (2 * one)
    } else {
        -((2 * (-n) + one) / (2 * one))
    }
}

/// The exponent field of a single-precision float.
pub open spec fn exponent_field(bits: u32) -> int {
    (bits as int / 0x80_0000) % 256
}

pub open spec fn fraction_field(bits: u32) -> int {
    bits as int % 0x80_0000
}

pub open spec fn is_negative(bits: u32) -> bool {
    bits >= 0x8000_0000
}

/// A finite float is its significand times two to the power of `exponent`.
pub open spec fn significand(bits: u32) -> int {
    if exponent_field(bits) == 0 {
        fraction_field(bits)
    } else {
        fraction_field(bits) + 0x80_0000
    }
}

pub open spec fn exponent(bits: u32) -> int {
    if exponent_field(bits) == 0 {
        -149
    } else {
        exponent_field(bits) - 150
    }
}

/// A finite float times two to the power of `width`, in units of 2^-200.
pub open spec fn scaled(bits: u32, width: int) -> int {
    let magnitude = significand(bits) * pow2((exponent(bits) + width + 200) as nat);
    if is_negative(bits) {
        -magnitude
    } else {
        magnitude
    }
}

/// What a sample is before it is rounded, in units of 2^-200. `noise` counts units of 2^-53 and is
/// added in double precision.
pub open spec fn dithered(bits: u32, width: int, noise: Option<i64>) -> int {
    match noise {
        None => scaled(bits, width),
        Some(amount) => nearest_double(scaled(bits, width) + amount * pow2(147)),
    }
}

/// A sample as a signed integer of `width` bits and a sign: scaled so that one is the full
/// negative range, dithered, rounded and clamped. What is not a number is silence.
pub open spec fn quantised(bits: u32, width: int, noise: Option<i64>) -> int {
    let top = pow2(width as nat) - 1;
    let bottom = -(pow2(width as nat) as int);
    if exponent_field(bits) == 255 {
        if fraction_field(bits) != 0 {
            0
        } else if is_negative(bits) {
            bottom
        } else {
            top
        }
    } else {
        let whole = rounded(dithered(bits, width, noise), pow2(200) as int);
        if whole < bottom {
            bottom
        } else if whole > top {
            top
        } else {
            whole
        }
    }
}

proof fn lemma_nearest_twice(n: nat)
    ensures
        nearest_magnitude(2 * n) == 2 * nearest_magnitude(n),
{
    let grid = pow2(excess(n));
    let below = n / grid;
    let rest = n % grid;
    lemma_pow2_pos(excess(n));
    lemma2_to64();
    if 2 * n < 0x20_0000_0000_0000 {
        assert(excess(2 * n) == 0 && excess(n) == 0);
        assert(pow2(0) == 1);
        lemma_fundamental_div_mod(n as int, 1);
        lemma_fundamental_div_mod(2 * n as int, 1);
    } else {
        assert((2 * n) / 2 == n);
        assert(excess(2 * n) == 1 + excess(n));
        lemma_pow2_unfold(excess(2 * n));
        let wide = pow2(excess(2 * n));
        assert(wide == 2 * grid);
        lemma_fundamental_div_mod(n as int, grid as int);
        assert(2 * n == below * wide + 2 * rest) by (nonlinear_arith)
            requires
                n == grid * below + rest,
                wide == 2 * grid,
        ;
        lemma_mod_bound(n as int, grid as int);
        lemma_fundamental_div_mod_converse(2 * n as int, wide as int, below as int, 2 * rest as int);
        assert((below + 1) * wide == 2 * ((below + 1) * grid)) by (nonlinear_arith)
            requires
                wide == 2 * grid,
        ;
        assert(below * wide == 2 * (below * grid)) by (nonlinear_arith)
            requires
                wide == 2 * grid,
        ;
    }
}

/// Bringing to 53 bits does not depend on the unit that is counted in.
proof fn lemma_nearest_scale(n: nat, j: nat)
    ensures
        nearest_magnitude(n * pow2(j)) == nearest_magnitude(n) * pow2(j),
    decreases j,
{
    lemma2_to64();
    if j > 0 {
        let k = (j - 1) as nat;
        lemma_nearest_scale(n, k);
        lemma_pow2_unfold(j);
        lemma_nearest_twice(n * pow2(k));
        assert(n * pow2(j) == 2 * (n * pow2(k))) by (nonlinear_arith)
            requires
                pow2(j) == 2 * pow2(k),
        ;
        assert(nearest_magnitude(n) * pow2(j) == 2 * (nearest_magnitude(n) * pow2(k)))
            by (nonlinear_arith)
            requires
                pow2(j) == 2 * pow2(k),
        ;
    } else {
        assert(pow2(0) == 1);
        assert(n * pow2(0) == n) by (nonlinear_arith)
            requires
                pow2(0) == 1,
        ;
        assert(nearest_magnitude(n) * pow2(0) == nearest_magnitude(n)) by (nonlinear_arith)
            requires
                pow2(0) == 1,
        ;
    }
}

/// What has 53 bits or fewer is a double already.
proof fn lemma_nearest_exact(n: nat, j: nat)
    requires
        n < 0x20_0000_0000_0000,
    ensures
        nearest_magnitude(n * pow2(j)) == n * pow2(j),
{
    lemma2_to64();
    assert(pow2(0) == 1);
    lemma_fundamental_div_mod(n as int, 1);
    lemma_mod_bound(n as int, 1);
    let grid = pow2(excess(n));
    assert((n / grid) * grid == n / grid) by (nonlinear_arith)
        requires
            grid == 1,
    ;
    assert(nearest_magnitude(n) == n);
    lemma_nearest_scale(n, j);
}

/// What has at most one bit too many.
pub proof fn lemma_nearest_of_54_bits(n: nat)
    requires
        n < 0x40_0000_0000_0000,
    ensures
        n <= 0x20_0000_0000_0000 ==> nearest_magnitude(n) == n,
        n >= 0x20_0000_0000_0000 ==> nearest_magnitude(n) == if n % 4 == 1 {
            n - 1
        } else if n % 4 == 3 {
            n + 1int
        } else {
            n as int
        },
{
    lemma2_to64();
    if n < 0x20_0000_0000_0000 {
        lemma_nearest_exact(n, 0);
        assert(n * pow2(0) == n) by (nonlinear_arith)
            requires
                pow2(0) == 1,
        ;
    } else {
        assert(excess(n / 2) == 0);
        assert(excess(n) == 1);
        assert(pow2(1) == 2);
    }
}

/// Bringing to 53 bits never loses more than half.
proof fn lemma_nearest_at_least_half(n: nat)
    ensures
        2 * nearest_magnitude(n) >= n,
{
    let grid = pow2(excess(n));
    let below = n / grid;
    lemma_pow2_pos(excess(n));
    lemma_fundamental_div_mod(n as int, grid as int);
    lemma_mod_bound(n as int, grid as int);
    assert((below + 1) * grid >= below * grid) by (nonlinear_arith)
        requires
            grid > 0,
    ;
    assert(below * grid == grid * below) by (nonlinear_arith);
    if n < 0x20_0000_0000_0000 {
        lemma2_to64();
        lemma_nearest_exact(n, 0);
        assert(n * pow2(0) == n) by (nonlinear_arith)
            requires
                pow2(0) == 1,
        ;
    } else {
        lemma_excess(n);
        lemma_pow2_adds(52, excess(n));
        lemma2_to64_rest();
        assert(below >= 1) by {
            if below < 1 {
                assert(grid * below == 0) by (nonlinear_arith)
                    requires
                        below == 0,
                ;
                assert(pow2(52) * grid >= grid) by (nonlinear_arith)
                    requires
                        pow2(52) >= 1,
                        grid > 0,
                ;
            }
        }
        assert(grid * below >= grid) by (nonlinear_arith)
            requires
                below >= 1,
                grid > 0,
        ;
    }
}

/// A number of more than 53 bits has `excess` bits more than that.
proof fn lemma_excess(n: nat)
    requires
        n >= 0x20_0000_0000_0000,
    ensures
        excess(n) >= 1,
        pow2(52 + excess(n)) <= n < pow2(53 + excess(n)),
    decreases n,
{
    lemma2_to64_rest();
    lemma_pow2_unfold(54);
    if n / 2 < 0x20_0000_0000_0000 {
        assert(excess(n / 2) == 0);
        assert(excess(n) == 1);
    } else {
        lemma_excess(n / 2);
        lemma_pow2_unfold(52 + excess(n));
        lemma_pow2_unfold(53 + excess(n));
    }
}

/// A magnitude brought to 53 significant bits.
fn nearest(n: u128) -> (near: u128)
    requires
        n < 0x4000_0000_0000_0000_0000_0000_0000_0000,
    ensures
        near == nearest_magnitude(n as nat),
        near < 0x8000_0000_0000_0000_0000_0000_0000_0000,
{
    let mut below: u128 = n;
    let mut grid: u128 = 1;
    let ghost mut k: nat = 0;
    proof {
        lemma2_to64();
    }
    while below >= 0x20_0000_0000_0000
        invariant
            n < 0x4000_0000_0000_0000_0000_0000_0000_0000,
            grid == pow2(k),
            grid > 0,
            below == n as int / grid as int,
            grid * below <= n,
            excess(n as nat) == k + excess(below as nat),
        decreases below,
    {
        proof {
            assert(grid * 0x20_0000_0000_0000 <= n) by (nonlinear_arith)
                requires
                    grid * below <= n,
                    below >= 0x20_0000_0000_0000,
                    grid > 0,
            ;
            lemma_div_denominator(n as int, grid as int, 2);
            lemma_pow2_unfold(k + 1);
            assert((grid * 2) * (below / 2) <= grid * below) by (nonlinear_arith)
                requires
                    (below / 2) * 2 <= below,
                    grid > 0,
            ;
            k = k + 1;
        }
        below = below / 2;
        grid = grid * 2;
    }
    proof {
        lemma_fundamental_div_mod(n as int, grid as int);
        lemma_mod_bound(n as int, grid as int);
        assert(below * grid == grid * below) by (nonlinear_arith);
        assert((below + 1) * grid == grid * below + grid) by (nonlinear_arith);
        if k > 0 {
            assert(grid <= n) by {
                lemma_excess(n as nat);
                lemma_pow2_strictly_increases(k, 52 + k);
            }
        }
    }
    let rest: u128 = n - below * grid;
    if 2 * rest > grid || (2 * rest == grid && below % 2 == 1) {
        (below + 1) * grid
    } else {
        below * grid
    }
}

/// Bringing to 53 bits lands on the grid, no further than half a step away.
proof fn lemma_nearest_error(n: nat)
    ensures
        2 * nearest_magnitude(n) <= 2 * n + pow2(excess(n)),
        2 * nearest_magnitude(n) >= 2 * n - pow2(excess(n)),
        nearest_magnitude(n) % pow2(excess(n)) == 0,
        n >= 0x20_0000_0000_0000 ==> nearest_magnitude(n) >= pow2(52 + excess(n)),
{
    let grid = pow2(excess(n)) as int;
    let below = n as int / grid;
    lemma_pow2_pos(excess(n));
    lemma_fundamental_div_mod(n as int, grid);
    lemma_mod_bound(n as int, grid);
    assert(below * grid == grid * below) by (nonlinear_arith);
    assert((below + 1) * grid == grid * below + grid) by (nonlinear_arith);
    lemma_mod_multiples_basic(below, grid);
    lemma_mod_multiples_basic(below + 1, grid);
    if n >= 0x20_0000_0000_0000 {
        lemma_excess(n);
        lemma_pow2_adds(52, excess(n));
        let least = pow2(52) as int;
        assert(below >= least) by {
            if below < least {
                assert(grid * (below + 1) <= grid * least) by (nonlinear_arith)
                    requires
                        below + 1 <= least,
                        grid > 0,
                ;
                assert(grid * (below + 1) == grid * below + grid) by (nonlinear_arith);
                assert(least * grid == grid * least) by (nonlinear_arith);
            }
        }
        assert(below * grid >= least * grid) by (nonlinear_arith)
            requires
                below >= least,
                grid > 0,
        ;
    }
}

/// Powers of two that the small-sample argument needs, all counted in 2^123.
proof fn lemma_small_powers()
    ensures
        pow2(123) > 0,
        pow2(146) == 0x80_0000 * pow2(123),
        pow2(147) == 0x100_0000 * pow2(123),
        pow2(148) == 0x200_0000 * pow2(123),
        pow2(198) == 0x8_0000_0000_0000_0000_00 * pow2(123),
        pow2(199) == 0x10_0000_0000_0000_0000_00 * pow2(123),
        pow2(200) == 0x20_0000_0000_0000_0000_00 * pow2(123),
        pow2(201) == 0x40_0000_0000_0000_0000_00 * pow2(123),
{
    lemma_pow2_pos(123);
    lemma2_to64();
    lemma2_to64_rest();
    lemma_pow2_adds(23, 123);
    lemma_pow2_adds(24, 123);
    lemma_pow2_adds(25, 123);
    lemma_pow2_adds(50, 25);
    lemma_pow2_adds(50, 26);
    lemma_pow2_adds(50, 27);
    lemma_pow2_adds(50, 28);
    lemma_pow2_adds(75, 123);
    lemma_pow2_adds(76, 123);
    lemma_pow2_adds(77, 123);
    lemma_pow2_adds(78, 123);
}

/// A sample too small to be told from silence leaves the rounding of the dither as it is.
proof fn lemma_small_sample(n: nat, amount: nat)
    requires
        amount <= 0x20_0000_0000_0000,
        amount * pow2(147) - pow2(123) < n < amount * pow2(147) + pow2(123),
    ensures
        rounded(nearest_magnitude(n) as int, pow2(200) as int) == if amount >= 0x10_0000_0000_0000 {
            1int
        } else {
            0int
        },
{
    let t = pow2(123) as int;
    let near = nearest_magnitude(n) as int;
    let k = excess(n);
    lemma_small_powers();
    lemma_nearest_error(n);
    assert(amount * pow2(147) == 0x100_0000 * (amount * t)) by (nonlinear_arith)
        requires
            pow2(147) == 0x100_0000 * t,
    ;
    if amount < 0x10_0000_0000_0000 {
        assert(amount * t <= 0xF_FFFF_FFFF_FFFF * t) by (nonlinear_arith)
            requires
                amount <= 0xF_FFFF_FFFF_FFFF,
                t > 0,
        ;
        assert(2 * near < pow2(200)) by {
            if n >= 0x20_0000_0000_0000 {
                lemma_excess(n);
                if k > 146 {
                    if 52 + k > 199 {
                        lemma_pow2_strictly_increases(199, 52 + k);
                    }
                }
                if k < 146 {
                    lemma_pow2_strictly_increases(k, 146);
                }
            } else {
                lemma2_to64();
            }
        }
        lemma_basic_div(2 * near + pow2(200), 2 * (pow2(200) as int));
    } else {
        assert(0x10_0000_0000_0000 * t <= amount * t <= 0x20_0000_0000_0000 * t)
            by (nonlinear_arith)
            requires
                0x10_0000_0000_0000 <= amount <= 0x20_0000_0000_0000,
                t > 0,
        ;
        assert(n >= pow2(199) - t);
        assert(n <= pow2(200) + t);
        assert(n >= 0x20_0000_0000_0000) by {
            lemma2_to64_rest();
            lemma_pow2_strictly_increases(53, 123);
        }
        lemma_excess(n);
        assert(k <= 148) by {
            if k > 148 {
                if 52 + k > 201 {
                    lemma_pow2_strictly_increases(201, 52 + k);
                }
            }
        }
        assert(k >= 146) by {
            if k < 146 {
                if 53 + k < 198 {
                    lemma_pow2_strictly_increases(53 + k, 198);
                }
            }
        }
        if k < 148 {
            lemma_pow2_strictly_increases(k, 148);
        }
        assert(near >= pow2(199)) by {
            if k >= 147 {
                if 52 + k > 199 {
                    lemma_pow2_strictly_increases(199, 52 + k);
                }
            } else {
                let grid = pow2(146) as int;
                let c = near / grid;
                lemma_fundamental_div_mod(near, grid);
                if near < pow2(199) {
                    assert(pow2(199) == 0x20_0000_0000_0000 * grid);
                    assert(c < 0x20_0000_0000_0000) by {
                        if c >= 0x20_0000_0000_0000 {
                            assert(grid * c >= grid * 0x20_0000_0000_0000) by (nonlinear_arith)
                                requires
                                    c >= 0x20_0000_0000_0000,
                                    grid > 0,
                            ;
                        }
                    }
                    assert(grid * c <= grid * 0x1F_FFFF_FFFF_FFFF) by (nonlinear_arith)
                        requires
                            c <= 0x1F_FFFF_FFFF_FFFF,
                            grid > 0,
                    ;
                }
            }
        }
        let one = pow2(200) as int;
        lemma_fundamental_div_mod_converse(2 * near + one, 2 * one, 1, 2 * near - one);
    }
}

/// A sample far past full scale stays past it, whatever the dither.
proof fn lemma_loud_sample(n: nat)
    requires
        n >= 0x100_0000 * pow2(200),
    ensures
        rounded(nearest_magnitude(n) as int, pow2(200) as int) >= 0x80_0000,
        rounded(n as int, pow2(200) as int) >= 0x80_0000,
{
    lemma_nearest_at_least_half(n);
    lemma_pow2_pos(200);
    let one = pow2(200) as int;
    let near = nearest_magnitude(n) as int;
    lemma_div_is_ordered(0x80_0000 * (2 * one), 2 * near + one, 2 * one);
    lemma_div_is_ordered(0x80_0000 * (2 * one), 2 * n + one, 2 * one);
    lemma_div_multiples_vanish(0x80_0000, 2 * one);
    assert((2 * one) * 0x80_0000 == 0x80_0000 * (2 * one));
}

/// Rounding treats both signs alike.
proof fn lemma_rounded_odd(n: int, one: int)
    requires
        n >= 0,
        one > 0,
    ensures
        rounded(-n, one) == -rounded(n, one),
{
    if n == 0 {
        lemma_basic_div(one, 2 * one);
    } else {
        assert(-(-n) == n);
    }
}

/// Rounding does not depend on the unit that is counted in.
proof fn lemma_rounded_unit(n: int)
    ensures
        rounded(n * pow2(100), pow2(200) as int) == rounded(n, pow2(100) as int),
{
    let x = pow2(100) as int;
    lemma_pow2_pos(100);
    lemma_pow2_adds(100, 100);
    let m = if n >= 0 {
        n
    } else {
        -n
    };
    assert(n >= 0 ==> n * x >= 0) by (nonlinear_arith)
        requires
            x > 0,
    ;
    assert(n < 0 ==> n * x < 0) by (nonlinear_arith)
        requires
            x > 0,
    ;
    assert(-(n * x) == (-n) * x) by (nonlinear_arith);
    assert(2 * (m * x) + x * x == x * (2 * m + x)) by (nonlinear_arith);
    assert(2 * (x * x) == x * (2 * x)) by (nonlinear_arith);
    lemma_div_multiples_vanish_quotient(x, 2 * m + x, 2 * x);
}

proof fn lemma_nearest_unit(n: int)
    ensures
        nearest_double(n * pow2(100)) == nearest_double(n) * pow2(100),
{
    let x = pow2(100) as int;
    lemma_pow2_pos(100);
    assert(n >= 0 ==> n * x >= 0) by (nonlinear_arith)
        requires
            x > 0,
    ;
    assert(n < 0 ==> n * x < 0) by (nonlinear_arith)
        requires
            x > 0,
    ;
    if n >= 0 {
        lemma_nearest_scale(n as nat, 100);
    } else {
        lemma_nearest_scale((-n) as nat, 100);
        assert(-(n * x) == (-n) * x) by (nonlinear_arith);
        let near = nearest_magnitude((-n) as nat) as int;
        assert(-(near * x) == (-near) * x) by (nonlinear_arith);
    }
}

/// `m` times two to the power of `k`.
fn shifted(m: u128, k: u32) -> (product: u128)
    requires
        m < 0x100_0000,
        k <= 101,
    ensures
        product == m * pow2(k as nat),
        product < 0x2000_0000_0000_0000_0000_0000_0000_0000,
{
    let mut product: u128 = m;
    let mut i: u32 = 0;
    proof {
        lemma2_to64();
        lemma2_to64_rest();
        lemma_pow2_adds(50, 51);
        assert(m * pow2(0) == m) by (nonlinear_arith)
            requires
                pow2(0) == 1,
        ;
        assert(m * pow2(0) <= m * pow2(101)) by (nonlinear_arith)
            requires
                pow2(0) <= pow2(101),
        ;
        assert(m * pow2(101) < 0x2000_0000_0000_0000_0000_0000_0000_0000) by (nonlinear_arith)
            requires
                m < 0x100_0000,
                pow2(101) == 0x4_0000_0000_0000 * 0x8_0000_0000_0000,
        ;
    }
    while i < k
        invariant
            i <= k <= 101,
            product == m * pow2(i as nat),
            m * pow2(101) < 0x2000_0000_0000_0000_0000_0000_0000_0000,
            product <= m * pow2(101),
        decreases k - i,
    {
        proof {
            let j = (i + 1) as nat;
            lemma_pow2_unfold(j);
            if j < 101 {
                lemma_pow2_strictly_increases(j, 101);
            }
            assert(m * pow2(j) == 2 * (m * pow2(i as nat))) by (nonlinear_arith)
                requires
                    pow2(j) == 2 * pow2(i as nat),
            ;
            assert(m * pow2(j) <= m * pow2(101)) by (nonlinear_arith)
                requires
                    pow2(j) <= pow2(101),
            ;
        }
        product = product * 2;
        i = i + 1;
    }
    product
}

/// Clamps to what `width` bits and a sign can hold.
fn clamped(value: i128, width: u32) -> (clamped: i32)
    requires
        width == 15 || width == 23,
    ensures
        clamped == if value < -(pow2(width as nat) as int) {
            -(pow2(width as nat) as int)
        } else if value > pow2(width as nat) - 1 {
            pow2(width as nat) - 1
        } else {
            value as int
        },
{
    proof {
        lemma2_to64();
    }
    let top: i128 = if width == 15 {
        32_767
    } else {
        8_388_607
    };
    if value > top {
        top as i32
    } else if value < -top - 1 {
        (-top - 1) as i32
    } else {
        value as i32
    }
}

/// Scales, dithers and clamps one sample, given by the bits of its float, to `width` bits and a
/// sign. `noise` is the dither in units of 2^-53.
///
/// Scaling by the full negative range and clamping, rather than by the top value to dodge the
/// clip, keeps unity gain exact: a sample at minus one comes back as minus one.
pub fn quantise(bits: u32, width: u32, noise: Option<i64>) -> (value: i32)
    requires
        width == 15 || width == 23,
        noise matches Some(amount) ==> -0x20_0000_0000_0000 <= amount <= 0x20_0000_0000_0000,
    ensures
        value == quantised(bits, width as int, noise),
        -(pow2(width as nat) as int) <= value < pow2(width as nat),
{
    proof {
        lemma2_to64();
    }
    let field: u32 = (bits / 0x80_0000) % 256;
    let fraction: u32 = bits % 0x80_0000;
    let negative: bool = bits >= 0x8000_0000;
    if field == 255 {
        if fraction != 0 {
            return 0;
        }
        return if negative {
            clamped(-0x8000_0000, width)
        } else {
            clamped(0x8000_0000, width)
        };
    }
    let m: u128 = if field == 0 {
        fraction as u128
    } else {
        fraction as u128 + 0x80_0000
    };
    let power: i32 = if field == 0 {
        -149 + width as i32
    } else {
        field as i32 - 150 + width as i32
    };
    let amount: i64 = match noise {
        Some(amount) => amount,
        None => 0,
    };
    if power >= 2 {
        // At least four times full scale: nothing that dither adds brings it back.
        proof {
            lemma_quantise_loud(bits, width as int, noise);
        }
        return if negative {
            clamped(-0x8000_0000, width)
        } else {
            clamped(0x8000_0000, width)
        };
    }
    if power < -100 {
        // Too small to be told from silence: the dither alone decides.
        proof {
            lemma_quantise_small(bits, width as int, noise);
        }
        return if amount >= 0x10_0000_0000_0000 {
            1
        } else if amount <= -0x10_0000_0000_0000 {
            -1
        } else {
            0
        };
    }
    let sample: i128 = if negative {
        -(shifted(m, (power + 100) as u32) as i128)
    } else {
        shifted(m, (power + 100) as u32) as i128
    };
    let sum: i128 = sample + amount as i128 * 0x8000_0000_0000;
    let magnitude: u128 = if sum < 0 {
        (-sum) as u128
    } else {
        sum as u128
    };
    let whole: i128 = ((nearest(magnitude) + 0x8_0000_0000_0000_0000_0000_0000)
        / 0x10_0000_0000_0000_0000_0000_0000) as i128;
    proof {
        lemma_quantise_moderate(bits, width as int, noise, sum as int);
        let near = nearest_magnitude(magnitude as nat) as int;
        let x = pow2(100) as int;
        lemma2_to64_rest();
        lemma_pow2_adds(50, 50);
        lemma_div_multiples_vanish_quotient(2, near + x / 2, x);
        assert(2 * (near + x / 2) == 2 * near + x);
    }
    if sum < 0 {
        clamped(-whole, width)
    } else {
        clamped(whole, width)
    }
}

/// The sum of a scaled sample and its dither, from a common unit.
proof fn lemma_quantise_moderate(bits: u32, width: int, noise: Option<i64>, sum: int)
    requires
        exponent_field(bits) != 255,
        width == 15 || width == 23,
        -100 <= exponent(bits) + width <= 1,
        ({
            let magnitude = significand(bits) * pow2((exponent(bits) + width + 100) as nat);
            let amount = match noise {
                Some(amount) => amount as int,
                None => 0,
            };
            sum == amount * 0x8000_0000_0000 + if is_negative(bits) {
                -magnitude
            } else {
                magnitude
            }
        }),
    ensures
        rounded(dithered(bits, width, noise), pow2(200) as int) == rounded(
            nearest_double(sum),
            pow2(100) as int,
        ),
{
    let k = (exponent(bits) + width + 100) as nat;
    let m = significand(bits);
    let x = pow2(100) as int;
    let magnitude = m * pow2(k);
    lemma_pow2_adds(k, 100);
    lemma_pow2_adds(47, 100);
    lemma2_to64_rest();
    assert(m * pow2(k + 100) == magnitude * x) by (nonlinear_arith)
        requires
            pow2(k + 100) == pow2(k) * x,
            magnitude == m * pow2(k),
    ;
    assert((-magnitude) * x == -(magnitude * x)) by (nonlinear_arith);
    match noise {
        Some(amount) => {
            let a = amount as int;
            let s = if is_negative(bits) {
                -magnitude
            } else {
                magnitude
            };
            assert(a * pow2(147) == (a * 0x8000_0000_0000) * x) by (nonlinear_arith)
                requires
                    pow2(147) == 0x8000_0000_0000 * x,
            ;
            assert((a * 0x8000_0000_0000 + s) * x == (a * 0x8000_0000_0000) * x + s * x)
                by (nonlinear_arith);
            assert(scaled(bits, width) + a * pow2(147) == sum * x);
            lemma_nearest_unit(sum);
            lemma_rounded_unit(nearest_double(sum));
        },
        None => {
            assert(scaled(bits, width) == sum * x);
            lemma_nearest_exact(m as nat, k);
            assert(magnitude >= 0) by (nonlinear_arith)
                requires
                    magnitude == m * pow2(k),
                    m >= 0,
            ;
            assert(nearest_double(sum) == sum);
            lemma_rounded_unit(sum);
        },
    }
}

proof fn lemma_quantise_small(bits: u32, width: int, noise: Option<i64>)
    requires
        exponent_field(bits) != 255,
        width == 15 || width == 23,
        exponent(bits) + width < -100,
        noise matches Some(amount) ==> -0x20_0000_0000_0000 <= amount <= 0x20_0000_0000_0000,
    ensures
        rounded(dithered(bits, width, noise), pow2(200) as int) == match noise {
            Some(amount) if amount >= 0x10_0000_0000_0000 => 1int,
            Some(amount) if amount <= -0x10_0000_0000_0000 => -1int,
            _ => 0int,
        },
{
    let m = significand(bits);
    let k = (exponent(bits) + width + 200) as nat;
    let magnitude = m * pow2(k);
    lemma_small_powers();
    lemma_pow2_pos(k);
    lemma2_to64();
    assert(0 <= magnitude < pow2(123)) by {
        lemma_pow2_adds(24, 99);
        if k < 99 {
            lemma_pow2_strictly_increases(k, 99);
        }
        assert(0 <= m * pow2(k) < pow2(24) * pow2(99)) by (nonlinear_arith)
            requires
                0 <= m < pow2(24),
                0 < pow2(k) <= pow2(99),
        ;
    }
    match noise {
        None => {
            lemma_rounded_odd(magnitude, pow2(200) as int);
            lemma_basic_div(2 * magnitude + pow2(200), 2 * (pow2(200) as int));
        },
        Some(amount) => {
            let a = amount as int;
            let n = scaled(bits, width) + a * pow2(147);
            if a >= 0 {
                if n >= 0 {
                    lemma_small_sample(n as nat, a as nat);
                } else {
                    assert(a == 0) by {
                        if a >= 1 {
                            assert(a * pow2(147) >= pow2(147)) by (nonlinear_arith)
                                requires
                                    a >= 1,
                            ;
                        }
                    }
                    assert(a * pow2(147) == 0) by (nonlinear_arith)
                        requires
                            a == 0,
                    ;
                    lemma_small_sample((-n) as nat, 0);
                    lemma_rounded_odd(nearest_magnitude((-n) as nat) as int, pow2(200) as int);
                }
            } else {
                assert(a * pow2(147) <= -(pow2(147) as int)) by (nonlinear_arith)
                    requires
                        a <= -1,
                ;
                assert((-a) * pow2(147) == -(a * pow2(147))) by (nonlinear_arith);
                lemma_small_sample((-n) as nat, (-a) as nat);
                lemma_rounded_odd(nearest_magnitude((-n) as nat) as int, pow2(200) as int);
            }
        },
    }
}

proof fn lemma_quantise_loud(bits: u32, width: int, noise: Option<i64>)
    requires
        exponent_field(bits) != 255,
        width == 15 || width == 23,
        exponent(bits) + width >= 2,
        noise matches Some(amount) ==> -0x20_0000_0000_0000 <= amount <= 0x20_0000_0000_0000,
    ensures
        is_negative(bits) ==> rounded(dithered(bits, width, noise), pow2(200) as int) <= -0x80_0000,
        !is_negative(bits) ==> rounded(dithered(bits, width, noise), pow2(200) as int) >= 0x80_0000,
{
    let m = significand(bits);
    let k = (exponent(bits) + width + 200) as nat;
    let magnitude = m * pow2(k);
    lemma_small_powers();
    lemma2_to64();
    assert(m >= 0x80_0000);
    lemma_pow2_adds(2, 200);
    if k > 202 {
        lemma_pow2_strictly_increases(202, k);
    }
    assert(magnitude >= 0x80_0000 * (4 * pow2(200))) by (nonlinear_arith)
        requires
            magnitude == m * pow2(k),
            m >= 0x80_0000,
            pow2(k) >= 4 * pow2(200),
    ;
    match noise {
        None => {
            lemma_loud_sample(magnitude as nat);
            lemma_rounded_odd(magnitude, pow2(200) as int);
        },
        Some(amount) => {
            let a = amount as int;
            lemma_pow2_adds(53, 147);
            lemma2_to64_rest();
            assert(-(pow2(200) as int) <= a * pow2(147) <= pow2(200)) by (nonlinear_arith)
                requires
                    -0x20_0000_0000_0000 <= a <= 0x20_0000_0000_0000,
                    pow2(200) == 0x20_0000_0000_0000 * pow2(147),
            ;
            let n = scaled(bits, width) + a * pow2(147);
            if is_negative(bits) {
                lemma_loud_sample((-n) as nat);
                lemma_rounded_odd(nearest_magnitude((-n) as nat) as int, pow2(200) as int);
            } else {
                lemma_loud_sample(n as nat);
            }
        },
    }
}

/// Every number lies below the power of two that its excess names, and at least at half of that
/// where it has one.
proof fn lemma_excess_bounds(n: nat)
    ensures
        n < pow2(53 + excess(n)),
        excess(n) > 0 ==> pow2(52 + excess(n)) <= n,
{
    lemma2_to64_rest();
    if n >= 0x20_0000_0000_0000 {
        lemma_excess(n);
    }
}

/// What a magnitude is brought to lies between the two neighbours on its grid.
proof fn lemma_nearest_bounds(n: nat)
    ensures
        excess(n) > 0 ==> nearest_magnitude(n) >= pow2(52 + excess(n)),
        nearest_magnitude(n) <= pow2(53 + excess(n)),
{
    let e = excess(n);
    let grid = pow2(e) as int;
    let below = n as int / grid;
    lemma_pow2_pos(e);
    lemma_excess_bounds(n);
    lemma_pow2_adds(53, e);
    lemma_pow2_adds(52, e);
    lemma2_to64_rest();
    lemma_fundamental_div_mod(n as int, grid);
    lemma_mod_bound(n as int, grid);
    assert(below < 0x20_0000_0000_0000) by (nonlinear_arith)
        requires
            grid * below + n as int % grid < 0x20_0000_0000_0000 * grid,
            0 <= n as int % grid,
            grid > 0,
    ;
    assert((below + 1) * grid <= 0x20_0000_0000_0000 * grid) by (nonlinear_arith)
        requires
            below < 0x20_0000_0000_0000,
            grid > 0,
    ;
    assert(below * grid <= (below + 1) * grid) by (nonlinear_arith)
        requires
            grid > 0,
    ;
    if e > 0 {
        assert(below >= 0x10_0000_0000_0000) by (nonlinear_arith)
            requires
                grid * below + n as int % grid >= 0x10_0000_0000_0000 * grid,
                n as int % grid < grid,
                grid > 0,
        ;
        assert(below * grid >= 0x10_0000_0000_0000 * grid) by (nonlinear_arith)
            requires
                below >= 0x10_0000_0000_0000,
                grid > 0,
        ;
    }
}

/// A larger magnitude is never brought to a smaller one.
proof fn lemma_nearest_monotone(n: nat, m: nat)
    requires
        n <= m,
    ensures
        nearest_magnitude(n) <= nearest_magnitude(m),
{
    let e = excess(n);
    let f = excess(m);
    lemma_excess_bounds(n);
    lemma_excess_bounds(m);
    if e == f {
        let grid = pow2(e) as int;
        lemma_pow2_pos(e);
        let a = n as int / grid;
        let b = m as int / grid;
        lemma_fundamental_div_mod(n as int, grid);
        lemma_fundamental_div_mod(m as int, grid);
        lemma_div_is_ordered(n as int, m as int, grid);
        if a < b {
            assert((a + 1) * grid <= b * grid) by (nonlinear_arith)
                requires
                    a < b,
                    grid > 0,
            ;
        }
        assert(a * grid <= (a + 1) * grid && b * grid <= (b + 1) * grid) by (nonlinear_arith)
            requires
                grid > 0,
        ;
    } else {
        if f < e {
            if 53 + f < 52 + e {
                lemma_pow2_strictly_increases(53 + f, 52 + e);
            }
        }
        if 53 + e < 52 + f {
            lemma_pow2_strictly_increases(53 + e, 52 + f);
        }
        lemma_nearest_bounds(n);
        lemma_nearest_bounds(m);
    }
}

/// No sum is brought past a double that it lies below.
proof fn lemma_nearest_upto(n: int, q: int, j: nat)
    requires
        -0x20_0000_0000_0000 < q < 0x20_0000_0000_0000,
        n <= q * pow2(j),
    ensures
        nearest_double(n) <= q * pow2(j),
{
    let limit = q * pow2(j);
    lemma_pow2_pos(j);
    if q >= 0 {
        assert(limit >= 0) by (nonlinear_arith)
            requires
                limit == q * pow2(j),
                q >= 0,
                pow2(j) > 0,
        ;
        if n >= 0 {
            lemma_nearest_monotone(n as nat, limit as nat);
            lemma_nearest_exact(q as nat, j);
        }
    } else {
        assert(limit < 0) by (nonlinear_arith)
            requires
                limit == q * pow2(j),
                q < 0,
                pow2(j) > 0,
        ;
        assert(-limit == (-q) * pow2(j)) by (nonlinear_arith)
            requires
                limit == q * pow2(j),
        ;
        lemma_nearest_monotone((-limit) as nat, (-n) as nat);
        lemma_nearest_exact((-q) as nat, j);
    }
}

/// No sum is brought past a double that it lies above.
proof fn lemma_nearest_from(n: int, q: int, j: nat)
    requires
        -0x20_0000_0000_0000 < q < 0x20_0000_0000_0000,
        n >= q * pow2(j),
    ensures
        nearest_double(n) >= q * pow2(j),
{
    assert((-q) * pow2(j) == -(q * pow2(j))) by (nonlinear_arith);
    lemma_nearest_upto(-n, -q, j);
    if n == 0 {
        lemma_nearest_exact(0, 0);
        assert(0nat * pow2(0) == 0) by (nonlinear_arith);
    }
}

proof fn lemma_rounded_monotone(n: int, m: int, one: int)
    requires
        one > 0,
        n <= m,
    ensures
        rounded(n, one) <= rounded(m, one),
{
    if n >= 0 {
        lemma_div_is_ordered(2 * n + one, 2 * m + one, 2 * one);
    } else if m < 0 {
        lemma_div_is_ordered(2 * (-m) + one, 2 * (-n) + one, 2 * one);
    } else {
        lemma_div_is_ordered(0, 2 * (-n) + one, 2 * one);
        lemma_div_is_ordered(0, 2 * m + one, 2 * one);
        lemma_basic_div(0, 2 * one);
    }
}

/// One whole more rounds to at most one whole more, but for minus one half: halves round away from
/// zero, so plus one half is two wholes up.
proof fn lemma_rounded_step(n: int, one: int)
    requires
        one > 0,
        2 * n != -one,
    ensures
        rounded(n + one, one) <= rounded(n, one) + 1,
{
    if n >= 0 {
        lemma_div_plus_one(2 * n + one, 2 * one);
        assert(2 * (n + one) + one == 2 * one + (2 * n + one));
    } else if n + one < 0 {
        lemma_div_plus_one(2 * (-n) - one, 2 * one);
        assert(2 * (-n) + one == 2 * one + (2 * (-n) - one));
        assert(2 * (-(n + one)) + one == 2 * (-n) - one);
    } else {
        let above = 2 * (n + one) + one;
        let below = 2 * (-n) + one;
        if 2 * n > -one {
            assert(above / (2 * one) == 1) by (nonlinear_arith)
                requires
                    2 * one <= above < 2 * (2 * one),
                    one > 0,
            ;
            lemma_basic_div(below, 2 * one);
        } else {
            lemma_basic_div(above, 2 * one);
            assert(below / (2 * one) == 1) by (nonlinear_arith)
                requires
                    2 * one <= below < 2 * (2 * one),
                    one > 0,
            ;
        }
    }
}

/// A sample well below half a step: dither alone decides, and it spans one step either way.
proof fn lemma_dither_on_a_small_sample(sample: int, amount: int)
    requires
        -(pow2(198) as int) < sample < pow2(198),
        -0x20_0000_0000_0000 <= amount < 0x20_0000_0000_0000,
    ensures
        rounded(sample, pow2(200) as int) == 0,
        -1 <= rounded(nearest_double(sample + amount * pow2(147)), pow2(200) as int) <= 1,
{
    let quarter = pow2(198) as int;
    let one = pow2(200) as int;
    lemma2_to64();
    lemma2_to64_rest();
    lemma_pow2_pos(198);
    lemma_pow2_adds(2, 198);
    lemma_pow2_adds(53, 147);
    assert(one == 4 * quarter);
    assert(-one <= amount * pow2(147) <= one) by (nonlinear_arith)
        requires
            -0x20_0000_0000_0000 <= amount < 0x20_0000_0000_0000,
            one == 0x20_0000_0000_0000 * pow2(147),
    ;
    let near = nearest_double(sample + amount * pow2(147));
    lemma_nearest_upto(sample + amount * pow2(147), 5, 198);
    lemma_nearest_from(sample + amount * pow2(147), -5, 198);
    lemma_rounded_monotone(near, 5 * quarter, one);
    lemma_rounded_monotone(-5 * quarter, near, one);
    lemma_rounded_odd(5 * quarter, one);
    assert((2 * (5 * quarter) + one) / (2 * one) == 1) by (nonlinear_arith)
        requires
            one == 4 * quarter,
            quarter > 0,
    ;
    lemma_rounded_monotone(sample, quarter, one);
    lemma_rounded_monotone(-quarter, sample, one);
    lemma_rounded_odd(quarter, one);
    assert((2 * quarter + one) / (2 * one) == 0) by (nonlinear_arith)
        requires
            one == 4 * quarter,
            quarter > 0,
    ;
}

/// A sample of at least a quarter of a step, which one whole more or less leaves a double.
proof fn lemma_dither_on_a_sample(q: int, amount: int)
    requires
        -0x10_0000_0000_0000 < q < 0x10_0000_0000_0000,
        -0x20_0000_0000_0000 <= amount < 0x20_0000_0000_0000,
        !(amount == -0x20_0000_0000_0000 && q == 0x100_0000),
    ensures
        ({
            let plain = rounded(q * pow2(175), pow2(200) as int);
            let moved = rounded(
                nearest_double(q * pow2(175) + amount * pow2(147)),
                pow2(200) as int,
            );
            plain - 1 <= moved <= plain + 1
        }),
{
    let unit = pow2(175) as int;
    let one = pow2(200) as int;
    let sample = q * unit;
    let sum = sample + amount * pow2(147);
    let near = nearest_double(sum);
    lemma2_to64();
    lemma2_to64_rest();
    lemma_pow2_pos(147);
    lemma_pow2_pos(175);
    lemma_pow2_adds(25, 175);
    lemma_pow2_adds(28, 147);
    lemma_pow2_adds(53, 147);
    assert(one == 0x200_0000 * unit);
    assert(-one <= amount * pow2(147) <= one) by (nonlinear_arith)
        requires
            -0x20_0000_0000_0000 <= amount < 0x20_0000_0000_0000,
            one == 0x20_0000_0000_0000 * pow2(147),
    ;
    let half = 0x100_0000 * unit;
    assert(2 * half == one);
    // Upwards.
    if q == -0x100_0000 {
        assert(sum <= 0xF_FFFF_FFFF_FFFF * pow2(147)) by (nonlinear_arith)
            requires
                sum == -0x100_0000 * unit + amount * pow2(147),
                amount <= 0x1F_FFFF_FFFF_FFFF,
                unit == 0x1000_0000 * pow2(147),
                pow2(147) > 0,
        ;
        lemma_nearest_upto(sum, 0xF_FFFF_FFFF_FFFF, 147);
        lemma_rounded_monotone(near, half - pow2(147), one);
        assert(half == 0x10_0000_0000_0000 * pow2(147));
        lemma_basic_div(2 * (half - pow2(147)) + one, 2 * one);
        assert(sample == -half);
        lemma_rounded_odd(half, one);
        assert((2 * half + one) / (2 * one) == 1) by (nonlinear_arith)
            requires
                2 * half == one,
                one > 0,
        ;
    } else {
        assert((q + 0x200_0000) * unit == sample + one) by (nonlinear_arith)
            requires
                sample == q * unit,
                one == 0x200_0000 * unit,
        ;
        lemma_nearest_upto(sum, q + 0x200_0000, 175);
        lemma_rounded_monotone(near, sample + one, one);
        assert(2 * sample != -one) by (nonlinear_arith)
            requires
                sample == q * unit,
                one == 0x200_0000 * unit,
                q != -0x100_0000,
                unit > 0,
        ;
        lemma_rounded_step(sample, one);
    }
    // Downwards.
    if q == 0x100_0000 {
        assert(sum >= -0xF_FFFF_FFFF_FFFF * pow2(147)) by (nonlinear_arith)
            requires
                sum == 0x100_0000 * unit + amount * pow2(147),
                amount >= -0x1F_FFFF_FFFF_FFFF,
                unit == 0x1000_0000 * pow2(147),
                pow2(147) > 0,
        ;
        lemma_nearest_from(sum, -0xF_FFFF_FFFF_FFFF, 147);
        assert(half == 0x10_0000_0000_0000 * pow2(147));
        assert(-0xF_FFFF_FFFF_FFFF * pow2(147) == -(half - pow2(147)));
        lemma_rounded_monotone(-(half - pow2(147)), near, one);
        lemma_rounded_odd(half - pow2(147), one);
        lemma_basic_div(2 * (half - pow2(147)) + one, 2 * one);
        assert(sample == half);
        assert((2 * half + one) / (2 * one) == 1) by (nonlinear_arith)
            requires
                2 * half == one,
                one > 0,
        ;
    } else {
        assert((q - 0x200_0000) * unit == sample - one) by (nonlinear_arith)
            requires
                sample == q * unit,
                one == 0x200_0000 * unit,
        ;
        lemma_nearest_from(sum, q - 0x200_0000, 175);
        lemma_rounded_monotone(sample - one, near, one);
        assert(2 * (sample - one) != -one) by (nonlinear_arith)
            requires
                sample == q * unit,
                one == 0x200_0000 * unit,
                q != 0x100_0000,
                unit > 0,
        ;
        lemma_rounded_step(sample - one, one);
    }
}

/// A float of at least a quarter of a step and below the loud ones counts units of 2^-25.
proof fn lemma_sample_grid(bits: u32, width: int) -> (q: int)
    requires
        exponent_field(bits) != 255,
        width == 15 || width == 23,
        exponent(bits) + width < 2,
        !(-(pow2(198) as int) < scaled(bits, width) < pow2(198)),
    ensures
        -0x10_0000_0000_0000 < q < 0x10_0000_0000_0000,
        scaled(bits, width) == q * pow2(175),
{
    let m = significand(bits);
    let k = (exponent(bits) + width + 200) as nat;
    lemma2_to64();
    lemma2_to64_rest();
    lemma_pow2_pos(k);
    if k < 175 {
        if k < 174 {
            lemma_pow2_strictly_increases(k, 174);
        }
        lemma_pow2_adds(24, 174);
        assert(m * pow2(k) < pow2(198)) by (nonlinear_arith)
            requires
                0 <= m < 0x100_0000,
                pow2(k) <= pow2(174),
                pow2(198) == 0x100_0000 * pow2(174),
                pow2(k) > 0,
        ;
        assert(m * pow2(k) >= 0) by (nonlinear_arith)
            requires
                m >= 0,
                pow2(k) > 0,
        ;
        assert(false);
    }
    let up = (k - 175) as nat;
    lemma_pow2_adds(up, 175);
    lemma_pow2_pos(up);
    if up < 26 {
        lemma_pow2_strictly_increases(up, 26);
    }
    let q = m * pow2(up);
    assert(0 <= q < 0x10_0000_0000_0000) by (nonlinear_arith)
        requires
            q == m * pow2(up),
            0 <= m < 0x100_0000,
            0 < pow2(up) <= 0x400_0000,
    ;
    assert(m * pow2(k) == q * pow2(175)) by (nonlinear_arith)
        requires
            q == m * pow2(up),
            pow2(k) == pow2(up) * pow2(175),
    ;
    assert(-(q * pow2(175)) == (-q) * pow2(175)) by (nonlinear_arith);
    if is_negative(bits) {
        -q
    } else {
        q
    }
}

/// Dither moves a sample by at most one step.
///
/// One draw is left out: the lowest noise of all, minus one exactly, on a sample that lies at plus
/// one half exactly. Halves round away from zero, so that pair spans two steps.
pub proof fn law_dither_moves_a_sample_by_at_most_one_step(bits: u32, width: int, amount: i64)
    requires
        width == 15 || width == 23,
        -0x20_0000_0000_0000 <= amount < 0x20_0000_0000_0000,
        !(amount == -0x20_0000_0000_0000 && exponent_field(bits) != 255 && scaled(bits, width)
            == pow2(199)),
    ensures
        quantised(bits, width, None) - 1 <= quantised(bits, width, Some(amount)) <= quantised(
            bits,
            width,
            None,
        ) + 1,
{
    lemma2_to64();
    if exponent_field(bits) != 255 {
        if exponent(bits) + width >= 2 {
            lemma_quantise_loud(bits, width, None);
            lemma_quantise_loud(bits, width, Some(amount));
        } else if -(pow2(198) as int) < scaled(bits, width) < pow2(198) {
            lemma_dither_on_a_small_sample(scaled(bits, width), amount as int);
        } else {
            let q = lemma_sample_grid(bits, width);
            lemma_pow2_adds(24, 175);
            lemma_dither_on_a_sample(q, amount as int);
        }
    }
}

} // verus!
