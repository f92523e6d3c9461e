//! The logistic function `squash` on a fixed-point domain, and its inverse
//! `stretch`, kept as a table.

use vstd::prelude::*;

verus! {

/// The knots of the piecewise-linear logistic curve: `squash` at
/// `(i - 16) * 128` for `i` in `0..33`, scaled to `0..4096`.
pub open spec fn knot(i: int) -> int {
    if i == 0 {
        1
    } else if i == 1 {
        2
    } else if i == 2 {
        3
    } else if i == 3 {
        6
    } else if i == 4 {
        10
    } else if i == 5 {
        16
    } else if i == 6 {
        27
    } else if i == 7 {
        45
    } else if i == 8 {
        73
    } else if i == 9 {
        120
    } else if i == 10 {
        194
    } else if i == 11 {
        310
    } else if i == 12 {
        488
    } else if i == 13 {
        747
    } else if i == 14 {
        1101
    } else if i == 15 {
        1546
    } else if i == 16 {
        2047
    } else if i == 17 {
        2549
    } else if i == 18 {
        2994
    } else if i == 19 {
        3348
    } else if i == 20 {
        3607
    } else if i == 21 {
        3785
    } else if i == 22 {
        3901
    } else if i == 23 {
        3975
    } else if i == 24 {
        4022
    } else if i == 25 {
        4050
    } else if i == 26 {
        4068
    } else if i == 27 {
        4079
    } else if i == 28 {
        4085
    } else if i == 29 {
        4089
    } else if i == 30 {
        4092
    } else if i == 31 {
        4093
    } else {
        4094
    }
}

/// Linear interpolation between two knots with weight `w` out of 128,
/// rounded to nearest.
pub open spec fn interpolate(a: int, b: int, w: int) -> int {
    (a * (128 - w) + b * w + 64) / 128
}

/// `squash(d)`: 4096 / (1 + e^(-d/256)), approximated by interpolation
/// between the knots; 0 below -2047 and 4095 above 2047.
pub open spec fn squash_spec(d: int) -> int {
    if d > 2047 {
        4095
    } else if d < -2047 {
        0
    } else {
        let q = (d + 2048) / 128;
        let w = (d + 2048) % 128;
        interpolate(knot(q), knot(q + 1), w)
    }
}

/// Returns `squash(d)`.
pub fn squash(d: i32) -> (r: i32)
    ensures
        r == squash_spec(d as int),
        0 <= r <= 4095,
{
    let sq_t: [i32; 33] = [
        1, 2, 3, 6, 10, 16, 27, 45, 73, 120, 194, 310, 488, 747, 1101,
        1546, 2047, 2549, 2994, 3348, 3607, 3785, 3901, 3975, 4022,
        4050, 4068, 4079, 4085, 4089, 4092, 4093, 4094,
    ];
    if d > 2047 {
        return 4095;
    }
    if d < -2047 {
        return 0;
    }
    assert(forall|i: int| 0 <= i < 33 ==> sq_t@[i] == knot(i));
    let i_w = d & 127;
    let ghost u: u32 = (d + 2048) as u32;
    assert((i_w as u32) == u & 127 && (((d >> 7) + 16) as u32) == u >> 7) by (bit_vector)
        requires
            -2047 <= d <= 2047,
            u == (d + 2048) as u32,
            i_w == d & 127,
    ;
    assert(u & 127 == u % 128 && u >> 7 == u / 128) by (bit_vector);
    assert(0 <= i_w < 128 && 0 <= (d >> 7) + 16 < 32) by (bit_vector)
        requires
            -2047 <= d <= 2047,
            i_w == d & 127,
    ;
    let idx = ((d >> 7) + 16) as usize;
    let a = sq_t[idx];
    let b = sq_t[idx + 1];
    proof {
        lemma_knots_bounded();
        assert(a == knot(idx as int) && b == knot(idx + 1));
        assert(0 <= a * (128 - i_w) <= 4094 * 128 && 0 <= b * i_w <= 4094 * 128) by (nonlinear_arith)
            requires
                1 <= a <= 4094,
                1 <= b <= 4094,
                0 <= i_w < 128,
        ;
    }
    let num: i32 = a * (128 - i_w) + b * i_w + 64;
    assert(num >> 7 == num / 128) by (bit_vector)
        requires
            num >= 0,
    ;
    proof {
        lemma_interpolate_bounds(a as int, b as int, i_w as int);
    }
    num >> 7
}

/// The knots rise from 1 to 4094.
pub proof fn lemma_knots_bounded()
    ensures
        forall|i: int| 0 <= i < 32 ==> 1 <= #[trigger] knot(i) <= knot(i + 1) <= 4094,
{
}

proof fn lemma_interpolate_bounds(a: int, b: int, w: int)
    requires
        0 <= a <= b,
        0 <= w < 128,
    ensures
        a <= interpolate(a, b, w) <= b,
        interpolate(a, b, 0) == a,
        w < 127 ==> interpolate(a, b, w) <= interpolate(a, b, w + 1),
        interpolate(b, b, 0) == b,
{
    assert(a * 128 + 64 <= a * (128 - w) + b * w + 64 <= b * 128 + 64) by (nonlinear_arith)
        requires
            0 <= a <= b,
            0 <= w < 128,
    ;
    assert(a * (128 - w) + b * w <= a * (128 - (w + 1)) + b * (w + 1)) by (nonlinear_arith)
        requires
            0 <= a <= b,
    ;
}

/// `squash` stays in `0..4096`, and strictly inside `1..4095` on
/// `-2047..=2047`.
pub proof fn lemma_squash_range(d: int)
    ensures
        0 <= squash_spec(d) <= 4095,
        -2047 <= d <= 2047 ==> 1 <= squash_spec(d) <= 4094,
{
    if -2047 <= d <= 2047 {
        let q = (d + 2048) / 128;
        let w = (d + 2048) % 128;
        lemma_knots_bounded();
        lemma_interpolate_bounds(knot(q), knot(q + 1), w);
    }
}

proof fn lemma_squash_step(d: int)
    ensures
        squash_spec(d) <= squash_spec(d + 1),
{
    lemma_squash_range(d);
    lemma_squash_range(d + 1);
    if -2047 <= d && d + 1 <= 2047 {
        let t = d + 2048;
        let q = t / 128;
        let w = t % 128;
        lemma_knots_bounded();
        if w < 127 {
            assert((t + 1) / 128 == q && (t + 1) % 128 == w + 1);
            lemma_interpolate_bounds(knot(q), knot(q + 1), w);
        } else {
            assert((t + 1) / 128 == q + 1 && (t + 1) % 128 == 0);
            lemma_interpolate_bounds(knot(q), knot(q + 1), w);
            lemma_interpolate_bounds(knot(q + 1), knot(q + 2), 0);
        }
    }
}

/// Neighbouring knots differ by at most 502.
proof fn lemma_knot_gaps()
    ensures
        forall|i: int| 0 <= i < 32 ==> #[trigger] knot(i + 1) - knot(i) <= 502,
{
}

/// On `-2047..=2047`, `squash` rises by at most 4 from one value to the
/// next.
pub proof fn lemma_squash_rise(d: int)
    requires
        -2046 <= d <= 2047,
    ensures
        squash_spec(d) <= squash_spec(d - 1) + 4,
{
    lemma_knots_bounded();
    lemma_knot_gaps();
    let t = d + 2048;
    let q = t / 128;
    let w = t % 128;
    if w >= 1 {
        assert((t - 1) / 128 == q && (t - 1) % 128 == w - 1);
        let a = knot(q);
        let b = knot(q + 1);
        assert(0 <= b - a <= 502);
        let y = a * (128 - (w - 1)) + b * (w - 1) + 64;
        let z = a * (128 - w) + b * w + 64;
        assert(z == y + (b - a) && y >= 0) by (nonlinear_arith)
            requires
                y == a * (128 - (w - 1)) + b * (w - 1) + 64,
                z == a * (128 - w) + b * w + 64,
                1 <= w < 128,
                0 <= a,
                0 <= b,
        ;
        assert(squash_spec(d) == z / 128);
        assert(squash_spec(d - 1) == y / 128);
    } else {
        assert(q >= 1);
        assert((t - 1) / 128 == q - 1 && (t - 1) % 128 == 127);
        let a0 = knot(q - 1);
        let a = knot(q);
        assert(0 <= a - a0 <= 502);
        assert(squash_spec(d) == (a * 128 + 64) / 128);
        assert(squash_spec(d) == a);
        assert(squash_spec(d - 1) == (a0 * 1 + a * 127 + 64) / 128);
    }
}

/// `squash` is nondecreasing.
pub proof fn lemma_squash_monotone(x: int, y: int)
    requires
        x <= y,
    ensures
        squash_spec(x) <= squash_spec(y),
    decreases y - x,
{
    if x < y {
        lemma_squash_step(x);
        lemma_squash_monotone(x + 1, y);
    }
}

/// The knots are symmetric about 2047.5, but for the middle one.
proof fn lemma_knots_symmetric()
    ensures
        forall|i: int| 0 <= i <= 32 ==> #[trigger] knot(i) + knot(32 - i) == if i == 16 {
            4094int
        } else {
            4095int
        },
{
}

/// `squash` is symmetric about 2047.5 up to rounding:
/// `squash(d) + squash(-d)` lies in `4094..=4096`.
pub proof fn lemma_squash_symmetric(d: int)
    ensures
        4094 <= squash_spec(d) + squash_spec(-d) <= 4096,
{
    lemma_knots_symmetric();
    lemma_knots_bounded();
    if -2047 <= d <= 2047 {
        let t = d + 2048;
        let q = t / 128;
        let w = t % 128;
        let t2 = -d + 2048;
        assert(t2 == 4096 - t);
        let x = squash_spec(d);
        let y = squash_spec(-d);
        if w == 0 {
            assert(t2 / 128 == 32 - q && t2 % 128 == 0);
            lemma_interpolate_bounds(knot(q), knot(q + 1), 0);
            lemma_interpolate_bounds(knot(32 - q), knot(33 - q), 0);
            assert(knot(q) + knot(32 - q) >= 4094);
        } else {
            assert(t2 / 128 == 31 - q && t2 % 128 == 128 - w);
            let a = knot(q);
            let b = knot(q + 1);
            let a2 = knot(31 - q);
            let b2 = knot(32 - q);
            let n1 = a * (128 - w) + b * w;
            let n2 = a2 * w + b2 * (128 - w);
            let e = 524160 - n1 - n2;
            assert(0 <= e <= 127) by (nonlinear_arith)
                requires
                    a2 == (if q + 1 == 16 { 4094int } else { 4095int }) - b,
                    b2 == (if q == 16 { 4094int } else { 4095int }) - a,
                    n1 == a * (128 - w) + b * w,
                    n2 == a2 * w + b2 * (128 - w),
                    e == 524160 - n1 - n2,
                    0 < w < 128,
            ;
            assert(x == (n1 + 64) / 128);
            assert(interpolate(a2, b2, 128 - w) == (n2 + 64) / 128);
            vstd::arithmetic::div_mod::lemma_fundamental_div_mod(n1 + 64, 128);
            vstd::arithmetic::div_mod::lemma_fundamental_div_mod(n2 + 64, 128);
            let xx = (n1 + 64) / 128;
            let yy = (n2 + 64) / 128;
            assert(0 <= (n1 + 64) % 128 < 128 && 0 <= (n2 + 64) % 128 < 128);
            assert(4094 <= xx + yy <= 4096) by (nonlinear_arith)
                requires
                    n1 + 64 == 128 * xx + (n1 + 64) % 128,
                    n2 + 64 == 128 * yy + (n2 + 64) % 128,
                    0 <= (n1 + 64) % 128 < 128,
                    0 <= (n2 + 64) % 128 < 128,
                    n1 + n2 == 524160 - e,
                    0 <= e <= 127,
            ;
        }
    }
}

/// The least `x` in `from..=2047` with `p <= squash(x)`, or 2047 if there
/// is none.
pub open spec fn least_reaching(p: int, from: int) -> int
    decreases 2047 - from,
{
    if from >= 2047 || p <= squash_spec(from) {
        from
    } else {
        least_reaching(p, from + 1)
    }
}

/// `stretch(p)`: the inverse of `squash`, the least `x` in `-2047..=2047`
/// with `p <= squash(x)`, or 2047 if there is none.
pub open spec fn stretch_spec(p: int) -> int {
    least_reaching(p, -2047)
}

proof fn lemma_least_reaching(p: int, from: int)
    requires
        from <= 2047,
    ensures
        from <= least_reaching(p, from) <= 2047,
        p <= squash_spec(least_reaching(p, from)) || least_reaching(p, from) == 2047,
        forall|y: int| from <= y < least_reaching(p, from) ==> squash_spec(y) < p,
    decreases 2047 - from,
{
    if !(from >= 2047 || p <= squash_spec(from)) {
        lemma_least_reaching(p, from + 1);
    }
}

/// `stretch(p)` lies in `-2047..=2047`, reaches `p` unless it is 2047, and
/// nothing below it reaches `p`.
pub proof fn lemma_stretch_is_least(p: int)
    ensures
        -2047 <= stretch_spec(p) <= 2047,
        p <= squash_spec(stretch_spec(p)) || stretch_spec(p) == 2047,
        forall|y: int| -2047 <= y < stretch_spec(p) ==> squash_spec(y) < p,
{
    lemma_least_reaching(p, -2047);
}

/// A value `x` that reaches `p`, with the value just below it not reaching
/// `p`, is `stretch(p)`.
pub proof fn lemma_stretch_at(p: int, x: int)
    requires
        -2047 <= x <= 2047,
        p <= squash_spec(x) || x == 2047,
        x == -2047 || squash_spec(x - 1) < p,
    ensures
        stretch_spec(p) == x,
{
    lemma_stretch_is_least(p);
    let r = stretch_spec(p);
    if r < x {
        lemma_squash_monotone(r, x - 1);
    } else if r > x {
        assert(squash_spec(x) < p);
    }
}

/// `stretch` and `squash` form a Galois connection: for `p` in `0..4095`
/// and `x` in `-2047..=2047`, `stretch(p) <= x` exactly when
/// `p <= squash(x)`; and `stretch(4095)` is 2047.
pub proof fn lemma_stretch_squash_galois(p: int, x: int)
    requires
        0 <= p <= 4094,
        -2047 <= x <= 2047,
    ensures
        stretch_spec(p) <= x <==> p <= squash_spec(x),
        stretch_spec(4095) == 2047,
{
    lemma_stretch_is_least(p);
    let r = stretch_spec(p);
    assert(squash_spec(2047) == 4094);
    if p <= squash_spec(x) {
        if r > x {
            assert(squash_spec(x) < p);
        }
    }
    if r <= x {
        if r != 2047 {
            lemma_squash_monotone(r, x);
        }
    }
    assert forall|y: int| -2047 <= y < 2047 implies squash_spec(y) < 4095 by {
        lemma_squash_range(y);
    }
    lemma_stretch_at(4095, 2047);
}

/// The table of `stretch` over `0..4096`.
pub open spec fn is_stretch_table(t: Seq<i16>) -> bool {
    &&& t.len() == 4096
    &&& forall|j: int| 0 <= j < 4096 ==> t[j] == stretch_spec(j)
}

/// Builds the table of `stretch`, by walking `squash` upward and filling
/// each probability with the first input that reaches it.
pub fn build_stretch_table() -> (table: [i16; 4096])
    ensures
        is_stretch_table(table@),
{
    let mut table = [0i16; 4096];
    let mut pi: i32 = 0;
    let mut x: i32 = -2047;
    while x <= 2047
        invariant
            -2047 <= x <= 2048,
            x == -2047 ==> pi == 0,
            x > -2047 ==> pi == squash_spec(x - 1) + 1,
            0 <= pi <= 4095,
            table@.len() == 4096,
            forall|k: int| 0 <= k < pi ==> table@[k] == stretch_spec(k),
        decreases 2048 - x,
    {
        let i = squash(x);
        proof {
            lemma_squash_range(x as int);
            if x > -2047 {
                lemma_squash_monotone(x - 1, x as int);
            }
        }
        let mut j: i32 = pi;
        while j <= i
            invariant
                -2047 <= x <= 2047,
                x == -2047 ==> pi == 0,
                x > -2047 ==> pi == squash_spec(x - 1) + 1,
                i == squash_spec(x as int),
                1 <= i <= 4094,
                0 <= pi <= j <= i + 1,
                table@.len() == 4096,
                forall|k: int| 0 <= k < j ==> table@[k] == stretch_spec(k),
            decreases i + 1 - j,
        {
            proof {
                lemma_stretch_at(j as int, x as int);
            }
            table[j as usize] = x as i16;
            j += 1;
        }
        pi = i + 1;
        x += 1;
    }
    proof {
        assert forall|y: int| -2047 <= y < 2047 implies squash_spec(y) < 4095 by {
            lemma_squash_range(y);
        }
        lemma_stretch_at(4095, 2047);
    }
    table[4095] = 2047;
    table
}

/// Returns `stretch(p)`, read from a table built by `build_stretch_table`.
pub fn stretch(table: &[i16; 4096], p: i32) -> (r: i32)
    requires
        is_stretch_table(table@),
        0 <= p < 4096,
    ensures
        r == stretch_spec(p as int),
        -2047 <= r <= 2047,
{
    proof {
        lemma_stretch_is_least(p as int);
    }
    table[p as usize] as i32
}

} // verus!
