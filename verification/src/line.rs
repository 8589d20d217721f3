//! Scan conversion of line segments.
//!
//! A segment advances one pixel per step along its longer axis and by the
//! quotient of the two extents along the other. The fractional coordinate is
//! kept in single precision: the quotient and every sum are rounded to a
//! significand of 24 bits, ties to even. All values that arise are multiples
//! of 2^-48 below 2^10, so the arithmetic is carried out exactly on integers
//! scaled by 2^48.

use vstd::prelude::*;
use vstd::arithmetic::power2::*;
use vstd::arithmetic::div_mod::*;
use vstd::arithmetic::mul::*;
use crate::canvas::{
    WIDTH,
    HEIGHT,
    PIXELS,
    on_canvas,
    pixel_index,
    column_of,
    row_of,
    lemma_pixel_index,
    lemma_pixel_point,
};

verus! {

/// The number 1 in the fixed-point scale: 2^48.
pub const ONE: u64 = 0x1_0000_0000_0000;

/// The single-precision value nearest to 0.499, scaled.
pub const POSITIVE_LIMIT: u64 = 0x7FBE_7700_0000;

/// The single-precision value nearest to 0.501, scaled.
pub const NEGATIVE_LIMIT: u64 = 0x8041_8900_0000;

/// By how many bits `a` is longer than 24 bits.
pub open spec fn excess_bits(a: nat) -> nat
    decreases a,
{
    if a < 0x100_0000 {
        0
    } else {
        1 + excess_bits(a / 2)
    }
}

/// The spacing of the numbers with a significand of 24 bits at the size of
/// `a`.
pub open spec fn unit_of(a: nat) -> nat {
    pow2(excess_bits(a))
}

/// The number with a significand of 24 bits nearest to `num / den`; of two
/// equally near ones the one with the even significand.
pub open spec fn nearest(num: nat, den: nat) -> nat {
    let u = unit_of(num / den);
    let q = num / (den * u);
    let r = num - q * (den * u);
    if 2 * r > den * u || (2 * r == den * u && q % 2 == 1) {
        (q + 1) * u
    } else {
        q * u
    }
}

/// [`nearest`] for a number of either sign.
pub open spec fn nearest_signed(v: int) -> int {
    if v < 0 {
        -(nearest((-v) as nat, 1) as int)
    } else {
        nearest(v as nat, 1) as int
    }
}

/// The rounded quotient `delta / steps`, scaled.
pub open spec fn slope(delta: int, steps: int) -> int {
    if delta < 0 {
        -(nearest((-delta * ONE) as nat, steps as nat) as int)
    } else {
        nearest((delta * ONE) as nat, steps as nat) as int
    }
}

/// The scaled coordinate after `k` steps of `slope` from the integer `start`,
/// rounded after every step.
pub open spec fn accumulate(start: int, slope: int, k: nat) -> int
    decreases k,
{
    if k == 0 {
        start * ONE
    } else {
        nearest_signed(accumulate(start, slope, (k - 1) as nat) + slope)
    }
}

/// The pixel coordinate for the scaled coordinate `v`. Where the coordinate
/// falls from step to step (`slope < 0`), a fraction up to 0.501 rounds
/// down; where it rises or stays, a fraction below 0.499 rounds down.
/// Everything else rounds up, and no coordinate is negative.
pub open spec fn round_coordinate(v: int, slope: int) -> int {
    if v < 0 {
        0
    } else {
        let floor = v / (ONE as int);
        let fraction = nearest((v % (ONE as int)) as nat, 1);
        let rounds_down = if slope < 0 {
            fraction <= NEGATIVE_LIMIT
        } else {
            fraction < POSITIVE_LIMIT
        };
        if rounds_down || v % (ONE as int) == 0 {
            floor
        } else {
            floor + 1
        }
    }
}

/// The unit is a power of two that, for numbers below 2^(24 + e), divides 2^e.
pub proof fn lemma_unit_divides(a: nat, e: nat)
    requires
        a < pow2(24 + e),
    ensures
        excess_bits(a) <= e,
        unit_of(a) * pow2((e - excess_bits(a)) as nat) == pow2(e),
        unit_of(a) >= 1,
    decreases a,
{
    lemma2_to64();
    lemma_pow2_pos(excess_bits(a));
    if a < 0x100_0000 {
    } else {
        assert(e > 0);
        lemma_pow2_unfold(24 + e);
        assert((24 + e - 1) as nat == 24 + (e - 1) as nat);
        lemma_unit_divides(a / 2, (e - 1) as nat);
    }
    lemma_pow2_adds(excess_bits(a), (e - excess_bits(a)) as nat);
}

/// Rounding does not pass a whole number: if `num / den` is at most `c`,
/// so is the rounded quotient.
pub proof fn lemma_nearest_bounded(num: nat, den: nat, c: nat)
    requires
        den > 0,
        num <= c * ONE * den,
        c < 1024,
    ensures
        nearest(num, den) <= c * ONE,
{
    lemma2_to64();
    lemma2_to64_rest();
    let a = num / den;
    assert(a <= c * ONE) by {
        lemma_div_is_ordered(num as int, (c * ONE * den) as int, den as int);
        lemma_div_multiples_vanish((c * ONE) as int, den as int);
        assert(c * ONE * den == den * (c * ONE)) by (nonlinear_arith);
    }
    assert(pow2(24 + 48) == 0x1_0000_0000_0000_0000_00) by {
        lemma_pow2_adds(64, 8);
    }
    lemma_unit_divides(a, 48);
    let u = unit_of(a);
    let t = pow2((48 - excess_bits(a)) as nat);
    assert(u * t == ONE);
    let q = num / (den * u);
    let r = num - q * (den * u);
    let whole = c * t;
    assert(den * u > 0) by (nonlinear_arith)
        requires
            den > 0,
            u >= 1,
    ;
    lemma_fundamental_div_mod(num as int, (den * u) as int);
    lemma_mod_bound(num as int, (den * u) as int);
    assert(q * (den * u) == (den * u) * q) by (nonlinear_arith);
    assert(0 <= r < den * u);
    assert(whole * u == c * ONE) by (nonlinear_arith)
        requires
            whole == c * t,
            u * t == ONE,
    ;
    assert(whole * (den * u) == c * ONE * den) by (nonlinear_arith)
        requires
            whole * u == c * ONE,
    ;
    if q >= whole {
        assert(q * (den * u) >= whole * (den * u)) by (nonlinear_arith)
            requires
                q >= whole,
                den * u > 0,
        ;
        assert(r == 0);
        assert(q * (den * u) == whole * (den * u));
        assert(q == whole) by (nonlinear_arith)
            requires
                q * (den * u) == whole * (den * u),
                den * u > 0,
        ;
    } else {
        assert((q + 1) * u <= whole * u) by (nonlinear_arith)
            requires
                q + 1 <= whole,
                u >= 1,
        ;
    }
    assert(q * u <= whole * u) by (nonlinear_arith)
        requires
            q <= whole,
            u >= 1,
    ;
}

/// The size of a number without its sign.
pub open spec fn magnitude(v: int) -> int {
    if v < 0 {
        -v
    } else {
        v
    }
}

/// The direction of a number: -1, 0 or 1.
pub open spec fn signum(v: int) -> int {
    if v < 0 {
        -1
    } else if v > 0 {
        1
    } else {
        0
    }
}

/// How many steps the segment takes: the larger of its two extents.
pub open spec fn line_steps(x1: int, y1: int, x2: int, y2: int) -> int {
    if magnitude(x2 - x1) > magnitude(y2 - y1) {
        magnitude(x2 - x1)
    } else {
        magnitude(y2 - y1)
    }
}

/// The pixel that step `k` of the segment plots. The coordinate along the
/// longer axis moves by one per step; the other is accumulated and rounded.
pub open spec fn line_pixel(x1: int, y1: int, x2: int, y2: int, k: int) -> (int, int) {
    let width = x2 - x1;
    let height = y2 - y1;
    if magnitude(width) > magnitude(height) {
        let s = slope(height, magnitude(width));
        (x1 + k * signum(width), round_coordinate(accumulate(y1, s, k as nat), s))
    } else {
        let s = slope(width, magnitude(height));
        (round_coordinate(accumulate(x1, s, k as nat), s), y1 + k * signum(height))
    }
}

/// Whether one of the first `upto` steps of the segment plots `(x, y)`.
pub open spec fn line_covers(x1: int, y1: int, x2: int, y2: int, upto: int, x: int, y: int) -> bool {
    exists|k: int| 0 <= k < upto && #[trigger] line_pixel(x1, y1, x2, y2, k) == (x, y)
}

/// The pixels of the segment from `(x1, y1)` to `(x2, y2)`: what its steps
/// plot on the canvas, and the end point itself.
pub open spec fn line_pixels(x1: int, y1: int, x2: int, y2: int) -> Set<int> {
    Set::new(
        |i: int|
            0 <= i < PIXELS && (i == pixel_index(x2, y2) || line_covers(
                x1,
                y1,
                x2,
                y2,
                line_steps(x1, y1, x2, y2),
                column_of(i),
                row_of(i),
            )),
    )
}

/// The canvas after a segment is drawn. A segment with an end off the canvas
/// is not drawn at all.
pub open spec fn line_canvas(canvas: Seq<u8>, colour: u8, x1: int, y1: int, x2: int, y2: int) -> Seq<
    u8,
> {
    if on_canvas(x1, y1) && on_canvas(x2, y2) {
        crate::canvas::paint(canvas, line_pixels(x1, y1, x2, y2), colour)
    } else {
        canvas
    }
}

/// Computes [`unit_of`].
fn significand_unit(a: u64) -> (u: u64)
    requires
        a < 0x400_0000_0000_0000,
    ensures
        u == unit_of(a as nat),
        1 <= u <= 0x4_0000_0000,
{
    let mut u: u64 = 1;
    let mut rest: u64 = a;
    let ghost mut j: nat = 0;
    proof {
        lemma2_to64();
        lemma2_to64_rest();
        assert(unit_of(a as nat) == 1 * unit_of(a as nat));
    }
    while rest >= 0x100_0000
        invariant
            j <= 34,
            u == pow2(j),
            rest < pow2((58 - j) as nat),
            unit_of(a as nat) == u * unit_of(rest as nat),
        decreases rest,
    {
        proof {
            lemma2_to64();
            lemma2_to64_rest();
            assert(j < 34);
            lemma_pow2_unfold((58 - j) as nat);
            lemma_pow2_unfold(j + 1);
            lemma_pow2_unfold(excess_bits(rest as nat));
            lemma_pow2_strictly_increases(j + 1, 35);
            assert(unit_of(rest as nat) == 2 * unit_of((rest / 2) as nat));
            assert(u * (2 * unit_of((rest / 2) as nat)) == (2 * u) * unit_of((rest / 2) as nat))
                by (nonlinear_arith);
            j = j + 1;
        }
        rest = rest / 2;
        u = u * 2;
    }
    proof {
        lemma2_to64();
        lemma2_to64_rest();
        if j < 34 {
            lemma_pow2_strictly_increases(j, 34);
        }
        assert(excess_bits(rest as nat) == 0);
        let last = unit_of(rest as nat);
        assert(last == 1);
        assert(u * last == u) by (nonlinear_arith)
            requires
                last == 1,
        ;
    }
    u
}

/// Computes [`nearest`].
fn round_nearest(num: u64, den: u64) -> (r: u64)
    requires
        1 <= den <= 1024,
        num < 0x400_0000_0000_0000,
    ensures
        r == nearest(num as nat, den as nat),
{
    let u = significand_unit(num / den);
    assert(1 <= den * u <= 1024 * 0x4_0000_0000) by (nonlinear_arith)
        requires
            1 <= den <= 1024,
            1 <= u <= 0x4_0000_0000,
    ;
    let d = den * u;
    let q = num / d;
    proof {
        lemma_fundamental_div_mod(num as int, d as int);
        lemma_mod_bound(num as int, d as int);
        assert(q * d == d * q) by (nonlinear_arith);
        assert(q * u <= q * d) by (nonlinear_arith)
            requires
                d == den * u,
                den >= 1,
                u >= 1,
                q >= 0,
        ;
        assert((q + 1) * u == q * u + u) by (nonlinear_arith);
    }
    let r = num - q * d;
    if 2 * r > d || (2 * r == d && q % 2 == 1) {
        (q + 1) * u
    } else {
        q * u
    }
}

/// Computes [`slope`]. Its size is at most `ONE`.
fn slope_of(delta: i64, steps: u64) -> (s: i64)
    requires
        1 <= steps <= 1023,
        -steps <= delta <= steps,
    ensures
        s == slope(delta as int, steps as int),
        -ONE <= s <= ONE,
{
    if delta < 0 {
        let size: u64 = (-delta) as u64;
        assert(size * ONE <= 1023 * ONE) by (nonlinear_arith)
            requires
                size <= 1023,
        ;
        proof {
            assert(size * ONE <= 1 * ONE * steps) by (nonlinear_arith)
                requires
                    size <= steps,
            ;
            lemma_nearest_bounded((size * ONE) as nat, steps as nat, 1);
        }
        let m = round_nearest(size * ONE, steps);
        -(m as i64)
    } else {
        let size: u64 = delta as u64;
        assert(size * ONE <= 1023 * ONE) by (nonlinear_arith)
            requires
                size <= 1023,
        ;
        proof {
            assert(size * ONE <= 1 * ONE * steps) by (nonlinear_arith)
                requires
                    size <= steps,
            ;
            lemma_nearest_bounded((size * ONE) as nat, steps as nat, 1);
        }
        let m = round_nearest(size * ONE, steps);
        m as i64
    }
}

/// One step of [`accumulate`]: adds the slope and rounds.
fn advance(v: i64, s: i64) -> (next: i64)
    requires
        -1000 * ONE <= v <= 1000 * ONE,
        -ONE <= s <= ONE,
    ensures
        next == nearest_signed(v + s),
{
    let sum = v + s;
    if sum < 0 {
        let size: u64 = (-sum) as u64;
        proof {
            lemma_nearest_bounded(size as nat, 1, 1001);
        }
        let m = round_nearest(size, 1);
        -(m as i64)
    } else {
        let size: u64 = sum as u64;
        proof {
            lemma_nearest_bounded(size as nat, 1, 1001);
        }
        let m = round_nearest(size, 1);
        m as i64
    }
}

/// Computes [`round_coordinate`].
fn rounded_pixel(v: i64, s: i64) -> (p: usize)
    requires
        -1000 * ONE <= v <= 1000 * ONE,
    ensures
        p == round_coordinate(v as int, s as int),
        p <= 1001,
{
    if v < 0 {
        return 0;
    }
    let whole: u64 = (v as u64) / ONE;
    let part: u64 = (v as u64) % ONE;
    let fraction = round_nearest(part, 1);
    let rounds_down = if s < 0 {
        fraction <= NEGATIVE_LIMIT
    } else {
        fraction < POSITIVE_LIMIT
    };
    if rounds_down || part == 0 {
        whole as usize
    } else {
        (whole + 1) as usize
    }
}

/// Draws the segment from `(x1, y1)` to `(x2, y2)` in `colour`. A segment
/// with an end off the canvas leaves the canvas as it is.
pub fn draw_sierra_line(picture: &mut Vec<u8>, colour: u8, x1: i128, y1: i128, x2: i128, y2: i128)
    requires
        old(picture)@.len() == PIXELS,
    ensures
        final(picture)@ == line_canvas(
            old(picture)@,
            colour,
            x1 as int,
            y1 as int,
            x2 as int,
            y2 as int,
        ),
{
    if x1 < 0 || x1 >= 320 || y1 < 0 || y1 >= 190 || x2 < 0 || x2 >= 320 || y2 < 0 || y2 >= 190 {
        return ;
    }
    let ghost before = picture@;
    let width: i64 = (x2 - x1) as i64;
    let height: i64 = (y2 - y1) as i64;
    let width_size: u64 = if width < 0 { (-width) as u64 } else { width as u64 };
    let height_size: u64 = if height < 0 { (-height) as u64 } else { height as u64 };
    let along_x = width_size > height_size;
    let steps: u64 = if along_x { width_size } else { height_size };
    assert(steps == line_steps(x1 as int, y1 as int, x2 as int, y2 as int));
    if steps > 0 {
        let major_start: i64 = if along_x { x1 as i64 } else { y1 as i64 };
        let major_delta: i64 = if along_x { width } else { height };
        let minor_start: i64 = if along_x { y1 as i64 } else { x1 as i64 };
        let minor_delta: i64 = if along_x { height } else { width };
        let s = slope_of(minor_delta, steps);
        let direction: i64 = if major_delta > 0 { 1 } else { -1 };
        let mut major: i64 = major_start;
        let mut v: i64 = minor_start * (ONE as i64);
        let mut k: u64 = 0;
        while k < steps
            invariant
                picture@.len() == PIXELS,
                on_canvas(x1 as int, y1 as int),
                on_canvas(x2 as int, y2 as int),
                width == x2 - x1,
                height == y2 - y1,
                along_x == (magnitude(width as int) > magnitude(height as int)),
                steps == line_steps(x1 as int, y1 as int, x2 as int, y2 as int),
                steps == magnitude(major_delta as int),
                major_start == (if along_x { x1 } else { y1 }),
                major_delta == (if along_x { width } else { height }),
                minor_start == (if along_x { y1 } else { x1 }),
                minor_delta == (if along_x { height } else { width }),
                direction == signum(major_delta as int),
                s == slope(minor_delta as int, steps as int),
                -ONE <= s <= ONE,
                k <= steps,
                major == major_start + k * direction,
                v == accumulate(minor_start as int, s as int, k as nat),
                -(minor_start + k) * ONE <= v <= (minor_start + k) * ONE,
                forall|i: int|
                    0 <= i < PIXELS ==> picture@[i] == (if line_covers(
                        x1 as int,
                        y1 as int,
                        x2 as int,
                        y2 as int,
                        k as int,
                        column_of(i),
                        row_of(i),
                    ) {
                        colour
                    } else {
                        before[i]
                    }),
            decreases steps - k,
        {
            let ghost canvas = picture@;
            let minor = rounded_pixel(v, s);
            assert(0 <= major < 1000) by {
                assert(k * direction == (if direction == 1 { k as int } else { -(k as int) }))
                    by (nonlinear_arith)
                    requires
                        direction == 1 || direction == -1,
                ;
            }
            let px: usize = if along_x { major as usize } else { minor };
            let py: usize = if along_x { minor } else { major as usize };
            assert(line_pixel(x1 as int, y1 as int, x2 as int, y2 as int, k as int) == (
                px as int,
                py as int,
            ));
            if px < WIDTH && py < HEIGHT {
                proof {
                    lemma_pixel_index(px as int, py as int);
                }
                picture[py * WIDTH + px] = colour;
            }
            proof {
                let c = (minor_start + k) as nat;
                let sum = v + s;
                assert((c + 1) * ONE == c * ONE + ONE) by (nonlinear_arith);
                assert((c + 1) * ONE * 1 == (c + 1) * ONE) by (nonlinear_arith);
                lemma_nearest_bounded(magnitude(sum) as nat, 1, c + 1);
                assert forall|i: int| 0 <= i < PIXELS implies picture@[i] == (if line_covers(
                    x1 as int,
                    y1 as int,
                    x2 as int,
                    y2 as int,
                    k + 1,
                    column_of(i),
                    row_of(i),
                ) {
                    colour
                } else {
                    before[i]
                }) by {
                    lemma_pixel_point(i);
                    let hit = line_pixel(x1 as int, y1 as int, x2 as int, y2 as int, k as int) == (
                        column_of(i),
                        row_of(i),
                    );
                    let earlier = line_covers(
                        x1 as int,
                        y1 as int,
                        x2 as int,
                        y2 as int,
                        k as int,
                        column_of(i),
                        row_of(i),
                    );
                    let now = line_covers(
                        x1 as int,
                        y1 as int,
                        x2 as int,
                        y2 as int,
                        k + 1,
                        column_of(i),
                        row_of(i),
                    );
                    assert(now == (earlier || hit));
                    if hit {
                        assert(i == pixel_index(px as int, py as int));
                    }
                }
            }
            v = advance(v, s);
            major = major + direction;
            k += 1;
        }
    }
    proof {
        lemma_pixel_index(x2 as int, y2 as int);
    }
    picture[(y2 as usize) * WIDTH + (x2 as usize)] = colour;
    assert(picture@ =~= line_canvas(before, colour, x1 as int, y1 as int, x2 as int, y2 as int));
}

} // verus!
