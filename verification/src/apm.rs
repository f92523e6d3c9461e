//! `Apm`: an adaptive probability map. It refines a probability in a
//! context by interpolating between 33 bins placed along `stretch` of the
//! probability, and trains the two bins it used toward each coded bit.

use vstd::prelude::*;
use vstd::arithmetic::power2::pow2;
use crate::squash::{
    squash, squash_spec, stretch, stretch_spec, is_stretch_table, knot, lemma_knots_bounded,
    lemma_squash_monotone, lemma_squash_range, lemma_squash_rise, lemma_stretch_is_least,
    lemma_stretch_squash_galois,
};

verus! {

/// The value of `bit << rate` in 32-bit two's complement.
pub open spec fn shifted_bit(bit: int, rate: int) -> int {
    if bit == 1 && rate == 31 {
        -2147483648
    } else {
        bit * pow2(rate as nat)
    }
}

/// The value toward which bins are trained after `bit`: 0 after a 0 bit,
/// and just above 65535 after a 1 bit.
pub open spec fn apm_target(bit: int, rate: int) -> int {
    bit * 65536 + shifted_bit(bit, rate) - 2 * bit
}

/// A bin `a` moved toward `g` by `1 / 2^rate` of the distance, rounded
/// down, and stored in 16 bits.
pub open spec fn apm_adjust(a: int, g: int, rate: int) -> u16 {
    (a + (g - a) / (pow2(rate as nat) as int)) as u16
}

/// The initial value of bin `k`: `squash` at the bin's place on the
/// stretched axis, scaled to 16 bits.
pub open spec fn initial_bin(k: int) -> int {
    squash_spec((k % 33 - 16) * 128) * 16
}

/// An `Apm` seen as the bin used last, its number of contexts, and its
/// bins: 33 per context.
#[verifier::ext_equal]
pub struct ApmView {
    pub bin: int,
    pub cxts: int,
    pub bins: Seq<u16>,
}

/// A fresh map of `n` contexts.
pub open spec fn initial_apm(n: int) -> ApmView {
    ApmView { bin: 0, cxts: n, bins: Seq::new((n * 33) as nat, |k: int| initial_bin(k) as u16) }
}

impl ApmView {
    /// Trains the two bins used last toward `bit`.
    pub open spec fn update(self, bit: int, rate: int) -> ApmView {
        let g = apm_target(bit, rate);
        let a = self.bins[self.bin];
        let b = self.bins[self.bin + 1];
        ApmView {
            bins: self.bins.update(self.bin, apm_adjust(a as int, g, rate)).update(
                self.bin + 1,
                apm_adjust(b as int, g, rate),
            ),
            ..self
        }
    }

    /// Trains with `bit`, then refines the probability `pr` in context
    /// `cxt`: the new state and the refined 12-bit probability.
    pub open spec fn refine(self, bit: int, rate: int, pr: int, cxt: int) -> (ApmView, int) {
        let s = self.update(bit, rate);
        let st = stretch_spec(pr);
        let w = (st + 2048) % 128;
        let bin = (st + 2048) / 128 + cxt * 33;
        let a = s.bins[bin] as int;
        let b = s.bins[bin + 1] as int;
        (ApmView { bin, ..s }, (a * (128 - w) + b * w) / 2048)
    }
}

/// A refined probability is a 12-bit value, whatever the state.
pub proof fn lemma_refine_range(v: ApmView, bit: int, rate: int, pr: int, cxt: int)
    ensures
        0 <= v.refine(bit, rate, pr, cxt).1 < 4096,
{
    let s = v.update(bit, rate);
    let st = stretch_spec(pr);
    let w = (st + 2048) % 128;
    let bin = (st + 2048) / 128 + cxt * 33;
    let a = s.bins[bin] as int;
    let b = s.bins[bin + 1] as int;
    assert(0 <= a * (128 - w) + b * w <= 65535 * 128) by (nonlinear_arith)
        requires
            0 <= a <= 65535,
            0 <= b <= 65535,
            0 <= w < 128,
    ;
}

/// Refining reads the two neighbouring bins of the context whose places on
/// the stretched axis, `(k - 16) * 128` for bin `k` of the context, enclose
/// `stretch(pr)`, and interpolates linearly between them (after the
/// training) at `stretch(pr)`, scaled from 16 bits down to 12.
pub proof fn lemma_refine_at_stretch(v: ApmView, bit: int, rate: int, pr: int, cxt: int)
    ensures
        ({
            let r = v.refine(bit, rate, pr, cxt);
            let t = v.update(bit, rate);
            let k = r.0.bin - 33 * cxt;
            let w = stretch_spec(pr) - (k - 16) * 128;
            &&& 0 <= k < 32
            &&& 0 <= w < 128
            &&& r.0.bins == t.bins
            &&& r.0.cxts == v.cxts
            &&& r.1 == (t.bins[r.0.bin] as int * (128 - w) + t.bins[r.0.bin + 1] as int * w) / 2048
        }),
{
    lemma_stretch_is_least(pr);
}

/// A fresh map barely changes a probability: refining `pr` gives a value
/// within `-3..=4` of it, as long as the bins read are not the two that
/// the training just moved (those of the lowest places in context 0).
pub proof fn lemma_fresh_refine_near_identity(n: int, bit: int, rate: int, pr: int, cxt: int)
    requires
        0 <= cxt < n,
        0 <= pr < 4096,
        cxt >= 1 || pr >= 4,
    ensures
        pr - 3 <= initial_apm(n).refine(bit, rate, pr, cxt).1 <= pr + 4,
{
    let v = initial_apm(n);
    let t = v.update(bit, rate);
    lemma_stretch_is_least(pr);
    lemma_knots_bounded();
    let st = stretch_spec(pr);
    let j = (st + 2048) / 128;
    let w = (st + 2048) % 128;
    assert(0 <= j < 32);
    if cxt == 0 && st <= -1793 {
        lemma_squash_monotone(st, -1793);
        assert(squash_spec(-1793) == 3);
        assert(false);
    }
    let idx = j + cxt * 33;
    assert(idx >= 2);
    assert(idx + 1 < n * 33) by (nonlinear_arith)
        requires
            idx == j + cxt * 33,
            0 <= j < 32,
            0 <= cxt < n,
    ;
    assert(t.bins[idx] == v.bins[idx]);
    assert(t.bins[idx + 1] == v.bins[idx + 1]);
    vstd::arithmetic::div_mod::lemma_mod_multiples_vanish(cxt, j, 33);
    vstd::arithmetic::div_mod::lemma_mod_multiples_vanish(cxt, j + 1, 33);
    vstd::arithmetic::div_mod::lemma_small_mod(j as nat, 33);
    vstd::arithmetic::div_mod::lemma_small_mod((j + 1) as nat, 33);
    assert(33 * cxt + j == idx && 33 * cxt + (j + 1) == idx + 1);
    assert(idx % 33 == j && (idx + 1) % 33 == j + 1);
    let a = squash_spec((j - 16) * 128);
    let b = squash_spec((j - 15) * 128);
    lemma_squash_range((j - 16) * 128);
    lemma_squash_range((j - 15) * 128);
    assert(v.bins[idx] as int == a * 16);
    assert(v.bins[idx + 1] as int == b * 16);
    let r = v.refine(bit, rate, pr, cxt).1;
    assert(r == (a * 16 * (128 - w) + b * 16 * w) / 2048);
    let x = a * (128 - w) + b * w;
    assert(a * 16 * (128 - w) + b * 16 * w == 16 * x) by (nonlinear_arith)
        requires
            x == a * (128 - w) + b * w,
    ;
    assert(r == x / 128);
    // The bins hold `squash` at the knots, but for the two ends of the axis.
    let da = knot(j) - a;
    let db = b - knot(j + 1);
    if j >= 1 {
        assert(((j - 16) * 128 + 2048) / 128 == j && ((j - 16) * 128 + 2048) % 128 == 0);
        assert(a == (knot(j) * 128 + 64) / 128);
    }
    if j <= 30 {
        assert(((j - 15) * 128 + 2048) / 128 == j + 1 && ((j - 15) * 128 + 2048) % 128 == 0);
        assert(b == (knot(j + 1) * 128 + 64) / 128);
    }
    assert(0 <= da <= 1 && 0 <= db <= 1 && da + db <= 1);
    let nn = knot(j) * (128 - w) + knot(j + 1) * w;
    assert(nn - 128 <= x <= nn + 127) by (nonlinear_arith)
        requires
            x == a * (128 - w) + b * w,
            nn == knot(j) * (128 - w) + knot(j + 1) * w,
            a == knot(j) - da,
            b == knot(j + 1) + db,
            0 <= da <= 1,
            0 <= db <= 1,
            da + db <= 1,
            0 <= w < 128,
    ;
    let sq = squash_spec(st);
    assert(sq == (nn + 64) / 128);
    assert(sq - 2 <= r <= sq + 1);
    // `squash(stretch(pr))` is within `-1..=3` of `pr`.
    if pr == 4095 {
        lemma_stretch_squash_galois(0, 0);
        assert(squash_spec(2047) == 4094);
    } else {
        if st == 2047 {
            assert(squash_spec(2047) == 4094);
        }
        assert(pr <= sq);
        if st > -2047 {
            assert(squash_spec(st - 1) < pr);
            lemma_squash_rise(st);
        } else {
            assert(squash_spec(-2047) == 1);
        }
    }
}

/// Arithmetic shift right of a 32-bit integer is division by a power of
/// two, rounded down.
pub proof fn lemma_i32_shr_is_div(x: i32, r: u32)
    requires
        0 <= r < 32,
    ensures
        (x >> r) as int == (x as int) / (pow2(r as nat) as int),
{
    let xx: u32 = (x as int + 2147483648) as u32;
    let ru: u32 = r;
    assert((x >> r) as int == (xx >> ru) as int - (0x8000_0000u32 >> ru) as int) by (bit_vector)
        requires
            xx == (x as int + 2147483648) as u32,
            ru == r,
            r < 32,
    ;
    assert(xx as int == x as int + 2147483648);
    vstd::bits::lemma_u32_shr_is_div(xx, ru);
    vstd::bits::lemma_u32_shr_is_div(0x8000_0000u32, ru);
    let d = pow2(r as nat);
    vstd::arithmetic::power2::lemma_pow2_pos(r as nat);
    vstd::arithmetic::power2::lemma_pow2_adds(r as nat, (31 - r) as nat);
    vstd::arithmetic::power2::lemma2_to64();
    vstd::arithmetic::power2::lemma2_to64_rest();
    let k = pow2((31 - r) as nat) as int;
    assert(2147483648int == d * k);
    vstd::arithmetic::div_mod::lemma_div_multiples_vanish(k, d as int);
    assert(2147483648int / (d as int) == k) by (nonlinear_arith)
        requires
            2147483648int == d * k,
            d > 0,
    ;
    vstd::arithmetic::div_mod::lemma_hoist_over_denominator(x as int, k, d);
    assert(k * d == d * k) by (nonlinear_arith);
}

/// A bin `b` is `a` trained on `bit` at `rate` without truncation, and
/// has moved toward the bit.
pub open spec fn trained_toward(a: u16, b: u16, bit: int, rate: int) -> bool {
    &&& b as int == a + (apm_target(bit, rate) - a) / (pow2(rate as nat) as int)
    &&& bit == 1 ==> a <= b
    &&& bit == 0 ==> b <= a
}

/// A bin trained with a rate of at most 30 stays in 16 bits and moves
/// toward the bit: up after a 1, down after a 0.
pub proof fn lemma_adjust_toward(a: int, bit: int, rate: int)
    requires
        0 <= a <= 65535,
        bit == 0 || bit == 1,
        1 <= rate <= 30,
    ensures
        0 <= a + (apm_target(bit, rate) - a) / (pow2(rate as nat) as int) <= 65535,
        apm_adjust(a, apm_target(bit, rate), rate) as int == a + (apm_target(bit, rate) - a) / (
        pow2(rate as nat) as int),
        bit == 1 ==> a <= apm_adjust(a, apm_target(bit, rate), rate),
        bit == 0 ==> apm_adjust(a, apm_target(bit, rate), rate) <= a,
{
    let d = pow2(rate as nat) as int;
    vstd::arithmetic::power2::lemma_pow2_pos(rate as nat);
    vstd::arithmetic::power2::lemma2_to64();
    if rate > 1 {
        vstd::arithmetic::power2::lemma_pow2_strictly_increases(1, rate as nat);
    }
    let g = apm_target(bit, rate);
    let q = (g - a) / d;
    vstd::arithmetic::div_mod::lemma_fundamental_div_mod(g - a, d);
    let r = (g - a) % d;
    assert(0 <= r < d);
    if bit == 0 {
        assert(g == 0);
        assert(-a <= q <= 0) by (nonlinear_arith)
            requires
                -a == d * q + r,
                0 <= r < d,
                d >= 2,
                a >= 0,
        ;
    } else {
        assert(g == 65534 + d);
        assert(q * d == d * q) by (nonlinear_arith);
        if a == 65535 {
            assert(q == 0) by (nonlinear_arith)
                requires
                    d - 1 == d * q + r,
                    0 <= r < d,
                    d >= 2,
            ;
        } else {
            assert(1 <= q <= 65535 - a) by (nonlinear_arith)
                requires
                    65534 + d - a == d * q + r,
                    0 <= r < d,
                    d >= 2,
                    0 <= a <= 65534,
            ;
        }
    }
}

proof fn lemma_div_between(x: int, d: int)
    requires
        d >= 1,
    ensures
        x >= 0 ==> 0 <= x / d <= x,
        x < 0 ==> x <= x / d < 0,
{
    vstd::arithmetic::div_mod::lemma_fundamental_div_mod(x, d);
    let q = x / d;
    let r = x % d;
    assert(0 <= r < d);
    assert(x >= 0 ==> 0 <= q <= x) by (nonlinear_arith)
        requires
            x == d * q + r,
            0 <= r < d,
            d >= 1,
    ;
    assert(x < 0 ==> x <= q < 0) by (nonlinear_arith)
        requires
            x == d * q + r,
            0 <= r < d,
            d >= 1,
    ;
}

/// An adaptive probability map over a number of contexts.
pub struct Apm {
    bin: usize,
    cxts: usize,
    bins: Vec<u16>,
}

impl View for Apm {
    type V = ApmView;

    closed spec fn view(&self) -> ApmView {
        ApmView { bin: self.bin as int, cxts: self.cxts as int, bins: self.bins@ }
    }
}

impl Apm {
    /// There are 33 bins per context, and the last bin used is a position.
    pub open spec fn wf(&self) -> bool {
        &&& self@.bins.len() == self@.cxts * 33
        &&& 0 <= self@.bin
    }

    /// A map of `n` contexts, each with bins along the `squash` curve.
    pub fn new(n: usize) -> (s: Self)
        requires
            n * 33 <= usize::MAX,
        ensures
            s.wf(),
            s@ =~= initial_apm(n as int),
    {
        let mut row: Vec<u16> = Vec::new();
        let mut i: i32 = 0;
        while i < 33
            invariant
                0 <= i <= 33,
                row@.len() == i,
                forall|k: int| 0 <= k < i ==> row@[k] == initial_bin(k),
            decreases 33 - i,
        {
            let v = squash((i - 16) * 128);
            row.push((v * 16) as u16);
            i += 1;
        }
        let mut bins: Vec<u16> = Vec::new();
        let mut c: usize = 0;
        while c < n
            invariant
                0 <= c <= n,
                n * 33 <= usize::MAX,
                row@.len() == 33,
                forall|k: int| 0 <= k < 33 ==> row@[k] == initial_bin(k),
                bins@.len() == c * 33,
                forall|k: int| 0 <= k < c * 33 ==> #[trigger] bins@[k] == initial_bin(k),
            decreases n - c,
        {
            let mut j: usize = 0;
            while j < 33
                invariant
                    0 <= j <= 33,
                    c < n,
                    row@.len() == 33,
                    forall|k: int| 0 <= k < 33 ==> row@[k] == initial_bin(k),
                    bins@.len() == c * 33 + j,
                    forall|k: int| 0 <= k < c * 33 + j ==> #[trigger] bins@[k] == initial_bin(k),
                decreases 33 - j,
            {
                proof {
                    let k = c * 33 + j;
                    assert(k % 33 == j as int) by (nonlinear_arith)
                        requires
                            k == c * 33 + j,
                            0 <= j < 33,
                            c >= 0,
                    ;
                    assert(initial_bin(k) == initial_bin(j as int));
                }
                bins.push(row[j]);
                j += 1;
            }
            c += 1;
        }
        let s = Apm { bin: 0, cxts: n, bins };
        assert(s@.bins =~= initial_apm(n as int).bins);
        s
    }

    /// Trains on `bit` at `rate`, then refines `pr` in context `cxt` and
    /// returns the refined 12-bit probability.
    pub fn p(&mut self, table: &[i16; 4096], bit: i32, rate: i32, pr: i32, cxt: usize) -> (r: i32)
        requires
            old(self).wf(),
            is_stretch_table(table@),
            bit == 0 || bit == 1,
            0 < rate < 32,
            0 <= pr < 4096,
            cxt < old(self)@.cxts,
            cxt * 33 + 31 <= i32::MAX,
            old(self)@.bin + 1 < old(self)@.bins.len(),
            apm_target(bit as int, rate as int) - old(self)@.bins[old(self)@.bin] >= i32::MIN,
            apm_target(bit as int, rate as int) - old(self)@.bins[old(self)@.bin + 1] >= i32::MIN,
        ensures
            final(self).wf(),
            (final(self)@, r as int) == old(self)@.refine(bit as int, rate as int, pr as int, cxt as int),
            0 <= final(self)@.bin,
            final(self)@.bin + 1 < final(self)@.bins.len(),
            0 <= r < 4096,
    {
        self.update(bit, rate);
        let st = stretch(table, pr);
        let i_w = st & 127;
        let ghost u: u32 = (st + 2048) as u32;
        assert((i_w as u32) == u & 127 && 0 <= i_w < 128) by (bit_vector)
            requires
                -2047 <= st <= 2047,
                u == (st + 2048) as u32,
                i_w == st & 127,
        ;
        assert(u & 127 == u % 128) by (bit_vector);
        let hi = (st + 2048) >> 7;
        assert(hi == (st + 2048) / 128 && 0 <= hi < 32) by (bit_vector)
            requires
                hi == ((st + 2048) as i32) >> 7,
                -2047 <= st <= 2047,
        ;
        let bin = (hi + (cxt as i32) * 33) as usize;
        proof {
            assert(bin + 1 < self.bins@.len()) by (nonlinear_arith)
                requires
                    bin == hi + cxt * 33,
                    0 <= hi < 32,
                    cxt < self.cxts,
                    self.bins@.len() == self.cxts * 33,
            ;
        }
        self.bin = bin;
        let a = self.bins[self.bin] as i32;
        let b = self.bins[self.bin + 1] as i32;
        assert(0 <= a * (128 - i_w) && 0 <= b * i_w && a * (128 - i_w) + b * i_w <= 65535 * 128) by (nonlinear_arith)
            requires
                0 <= a <= 65535,
                0 <= b <= 65535,
                0 <= i_w < 128,
        ;
        let num = (a * (128 - i_w)) + (b * i_w);
        proof {
            lemma_i32_shr_is_div(num, 11);
            vstd::arithmetic::power2::lemma2_to64();
        }
        num >> 11
    }

    /// Trains the two bins used last toward `bit`, by `1 / 2^rate` of
    /// their distance.
    pub fn update(&mut self, bit: i32, rate: i32)
        requires
            old(self).wf(),
            bit == 0 || bit == 1,
            0 < rate < 32,
            old(self)@.bin + 1 < old(self)@.bins.len(),
            apm_target(bit as int, rate as int) - old(self)@.bins[old(self)@.bin] >= i32::MIN,
            apm_target(bit as int, rate as int) - old(self)@.bins[old(self)@.bin + 1] >= i32::MIN,
        ensures
            final(self).wf(),
            final(self)@ == old(self)@.update(bit as int, rate as int),
            rate <= 30 ==> trained_toward(
                old(self)@.bins[old(self)@.bin],
                final(self)@.bins[old(self)@.bin],
                bit as int,
                rate as int,
            ),
            rate <= 30 ==> trained_toward(
                old(self)@.bins[old(self)@.bin + 1],
                final(self)@.bins[old(self)@.bin + 1],
                bit as int,
                rate as int,
            ),
    {
        let shift = rate as u32;
        let sb = bit << shift;
        proof {
            let ru = shift;
            vstd::arithmetic::power2::lemma2_to64();
            vstd::arithmetic::power2::lemma2_to64_rest();
            if rate <= 30 {
                assert(sb as int == (bit as u32 * (1u32 << ru)) as int) by (bit_vector)
                    requires
                        sb == bit << ru,
                        ru == rate as u32,
                        0 < rate <= 30,
                        bit == 0 || bit == 1,
                ;
                vstd::bits::lemma_u32_shl_is_mul(1u32, ru);
                vstd::arithmetic::power2::lemma_pow2_strictly_increases(rate as nat, 31);
                if rate < 30 {
                    vstd::arithmetic::power2::lemma_pow2_strictly_increases(rate as nat, 30);
                }
            } else {
                assert(sb as int == (if bit == 1 { -2147483648int } else { 0int })) by (bit_vector)
                    requires
                        sb == bit << ru,
                        ru == 31,
                        bit == 0 || bit == 1,
                ;
            }
            assert(sb as int == shifted_bit(bit as int, rate as int));
            if bit == 1 {
                assert(-2147483648 <= sb <= 1073741824);
            } else {
                assert(sb == 0);
            }
            assert(bit << 16 == bit * 65536) by (bit_vector)
                requires
                    bit == 0 || bit == 1,
            ;
        }
        let g = (bit << 16) + sb - bit - bit;
        let bin = self.bin;
        let len = self.bins.len();
        assert(bin + 1 < len);
        let a = self.bins[bin] as i32;
        let b = self.bins[bin + 1] as i32;
        assert(g == apm_target(bit as int, rate as int));
        assert(a == old(self)@.bins[old(self)@.bin]);
        let da = g - a;
        let db = g - b;
        proof {
            lemma_i32_shr_is_div(da, shift);
            lemma_i32_shr_is_div(db, shift);
            vstd::arithmetic::power2::lemma_pow2_pos(rate as nat);
            lemma_div_between(da as int, pow2(rate as nat) as int);
            lemma_div_between(db as int, pow2(rate as nat) as int);
        }
        let na = (a + (da >> shift)) as u16;
        let nb = (b + (db >> shift)) as u16;
        self.bins.set(bin, na);
        self.bins.set(bin + 1, nb);
        proof {
            if rate <= 30 {
                lemma_adjust_toward(a as int, bit as int, rate as int);
                lemma_adjust_toward(b as int, bit as int, rate as int);
            }
        }
    }
}

} // verus!
