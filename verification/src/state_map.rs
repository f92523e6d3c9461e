//! `StateMap`: maps a context to an adaptive probability that the next bit
//! is 1, together with a count of how often the context was seen.

use vstd::prelude::*;

verus! {

/// Mask of the high 23 bits of a 32-bit update.
pub const PR_MSK: i32 = -512;

/// Controls the rate of adaptation: the count of a context stops growing
/// here (higher = slower).
pub const LIMIT: usize = 127;

/// The step size for a context seen `count` times: 32768 / (2 * count + 5).
pub open spec fn reciprocal(count: int) -> int {
    32768int / (2 * count + 5)
}

/// The count held in the low 9 bits of an entry.
pub open spec fn entry_count(v: u32) -> int {
    v as int % 512
}

/// The probability held in the high 18 bits of an entry.
pub open spec fn entry_probability(v: u32) -> int {
    v as int / 16384
}

/// One update of an entry by `bit`: the count grows by one below `LIMIT`,
/// and the error between the target (`bit` scaled to 2^18) and the
/// probability, times the step size of the count, is added modulo 2^32
/// after its low 9 bits are cleared.
pub open spec fn entry_update(v: u32, bit: int) -> u32 {
    let count = entry_count(v);
    let bumped = if count < LIMIT { v + 1 } else { v as int };
    let err = bit * 262144 - entry_probability(v);
    let u = (err * reciprocal(count)) % 4294967296;
    ((bumped + u - u % 512) % 4294967296) as u32
}

/// The count of an entry grows by one with every update while it is below
/// `LIMIT`, and otherwise stays as it is.
pub proof fn lemma_count_saturates(v: u32, bit: int)
    ensures
        entry_count(entry_update(v, bit)) == if entry_count(v) < LIMIT {
            entry_count(v) + 1
        } else {
            entry_count(v)
        },
{
    let count = entry_count(v);
    let bumped = if count < LIMIT { v + 1 } else { v as int };
    let err = bit * 262144 - entry_probability(v);
    let u = (err * reciprocal(count)) % 4294967296;
    let sum = bumped + u - u % 512;
    vstd::arithmetic::div_mod::lemma_fundamental_div_mod(u, 512);
    assert(sum == 512 * (u / 512) + bumped);
    vstd::arithmetic::div_mod::lemma_mod_multiples_vanish(u / 512, bumped, 512);
    vstd::arithmetic::div_mod::lemma_mod_mod(sum, 512, 8388608);
    assert(bumped % 512 == (if count < LIMIT { count + 1 } else { count }));
}

/// A `StateMap` seen as the context of the last prediction and its table
/// of entries.
#[verifier::ext_equal]
pub struct StateMapView {
    pub cxt: int,
    pub map: Seq<u32>,
}

/// The entry before its update adds anything: bumped by one while its
/// count is below `LIMIT`.
pub open spec fn entry_bumped(v: u32) -> int {
    if entry_count(v) < LIMIT { v + 1 } else { v as int }
}

/// The update's step without wrapping: the error times the step size of
/// the count, rounded down to a multiple of 512.
pub open spec fn entry_step(v: u32, bit: int) -> int {
    512 * (((bit * 262144 - entry_probability(v)) * reciprocal(entry_count(v))) / 512)
}

/// The entries a map can hold: the count at most `LIMIT`, and, below it,
/// the distance of the entry from 2^32 large enough for the count:
/// at least `3 * 2^31 / (2 * count + 3) - 16600`.
pub open spec fn entry_in_range(v: u32) -> bool {
    let c = entry_count(v);
    &&& c <= LIMIT
    &&& c < LIMIT ==> (4294967296 - v + 16600) * (2 * c + 3) >= 6442450944
}

proof fn lemma_reciprocal_bounds(c: int)
    requires
        0 <= c,
    ensures
        0 <= reciprocal(c) <= 6553,
        reciprocal(c) * (2 * c + 5) <= 32768,
        c == LIMIT ==> reciprocal(c) == 126,
{
    vstd::arithmetic::div_mod::lemma_fundamental_div_mod(32768, 2 * c + 5);
    let r = reciprocal(c);
    assert(0 <= 32768int % (2 * c + 5) < 2 * c + 5);
    assert(r * (2 * c + 5) <= 32768 && r >= 0) by (nonlinear_arith)
        requires
            32768 == (2 * c + 5) * r + 32768int % (2 * c + 5),
            0 <= 32768int % (2 * c + 5) < 2 * c + 5,
            c >= 0,
    ;
    assert(r <= 6553) by (nonlinear_arith)
        requires
            r * (2 * c + 5) <= 32768,
            c >= 0,
            r >= 0,
    ;
    if c == LIMIT {
        assert(r * 259 <= 32768 < (r + 1) * 259) by (nonlinear_arith)
            requires
                32768 == 259 * r + 32768int % 259,
                0 <= 32768int % 259 < 259,
        ;
    }
}

/// A map starts with its entries in range.
pub proof fn lemma_initial_entry_in_range()
    ensures
        entry_in_range(0x8000_0000u32),
{
    let v = 0x8000_0000u32;
    assert(entry_count(v) == 0);
    assert((4294967296 - v + 16600) * (2 * 0 + 3) >= 6442450944);
}

/// An update moves an entry toward the bit: after a 0 its high 23 bits do
/// not rise, after a 1, from an entry in range, they do not fall; in both
/// cases the addition does not wrap around, and an entry in range stays in
/// range.
pub proof fn lemma_entry_moves_toward_bit(v: u32, bit: int)
    requires
        bit == 0 || bit == 1,
        bit == 1 ==> entry_in_range(v),
    ensures
        entry_update(v, bit) as int == entry_bumped(v) + entry_step(v, bit),
        bit == 1 ==> entry_update(v, bit) as int / 512 >= v as int / 512,
        bit == 0 ==> entry_update(v, bit) as int / 512 <= v as int / 512,
        entry_in_range(v) ==> entry_in_range(entry_update(v, bit)),
{
    let c = entry_count(v);
    let p = entry_probability(v);
    let r = reciprocal(c);
    let e = bit * 262144 - p;
    let m = e * r;
    let bumped = entry_bumped(v);
    let step = entry_step(v, bit);
    let u = m % 4294967296;
    let dd = 4294967296 - v as int;
    lemma_reciprocal_bounds(c);
    lemma_count_saturates(v, bit);
    vstd::arithmetic::div_mod::lemma_fundamental_div_mod(v as int, 16384);
    vstd::arithmetic::div_mod::lemma_fundamental_div_mod(v as int, 512);
    vstd::arithmetic::div_mod::lemma_fundamental_div_mod(m, 512);
    assert(0 <= p < 262144);
    assert(16384 * p <= v as int <= 16384 * p + 16383);
    assert(bumped / 512 == v as int / 512);
    assert(step == m - m % 512);
    assert(0 <= m % 512 < 512);
    assert(bumped >= v);
    if bit == 0 {
        assert(e == 0 - p);
        assert(-262144 * 6553 <= m <= 0) by (nonlinear_arith)
            requires
                m == (0 - p) * r,
                0 <= p < 262144,
                0 <= r <= 6553,
        ;
        if m == 0 {
            assert(u == 0);
        } else {
            assert(u == m + 4294967296);
            vstd::arithmetic::div_mod::lemma_mod_multiples_vanish(8388608, m, 512);
            assert(u % 512 == m % 512);
            assert(p >= 1);
            assert(16384 * p + m >= 9831) by (nonlinear_arith)
                requires
                    m == (0 - p) * r,
                    p >= 1,
                    0 <= r <= 6553,
            ;
        }
        assert(0 <= bumped + step <= bumped);
        vstd::arithmetic::div_mod::lemma_div_is_ordered(bumped + step, bumped, 512);
    } else {
        assert(1 <= e <= 262144);
        assert(0 <= m <= 262144 * 6553) by (nonlinear_arith)
            requires
                m == e * r,
                1 <= e <= 262144,
                0 <= r <= 6553,
        ;
        assert(u == m);
        assert(0 <= step <= m);
        assert(dd == 16384 * e - v as int % 16384);
        if c < LIMIT {
            assert(step * (2 * c + 5) <= 32768 * e) by (nonlinear_arith)
                requires
                    0 <= step <= e * r,
                    r * (2 * c + 5) <= 32768,
                    e >= 1,
                    c >= 0,
            ;
            assert((dd - 1 - step + 16600) * (2 * c + 5) >= 6442450944) by (nonlinear_arith)
                requires
                    (dd + 16600) * (2 * c + 3) >= 6442450944,
                    step * (2 * c + 5) <= 32768 * e,
                    16384 * e <= dd + 16383,
                    0 <= c < 127,
            ;
            assert(dd - 1 - step >= 1) by (nonlinear_arith)
                requires
                    (dd - 1 - step + 16600) * (2 * c + 5) >= 6442450944,
                    0 <= c < 127,
            ;
        } else {
            assert(r == 126);
            if step > 0 {
                assert(m >= 512);
                assert(e >= 5) by (nonlinear_arith)
                    requires
                        m == e * 126,
                        m >= 512,
                ;
            }
            assert(dd - step >= 1) by (nonlinear_arith)
                requires
                    step > 0 ==> e >= 5,
                    0 <= step <= 126 * e,
                    dd == 16384 * e - v as int % 16384,
                    v as int % 16384 < 16384,
                    dd >= 1,
            ;
        }
        assert(bumped + step < 4294967296);
        vstd::arithmetic::div_mod::lemma_div_is_ordered(bumped, bumped + step, 512);
    }
    let nv = entry_update(v, bit);
    assert(nv as int == bumped + step);
    if entry_in_range(v) && c < LIMIT {
        let nd = 4294967296 - nv as int;
        if bit == 0 {
            assert(nd >= dd - 1);
            assert((nd + 16600) * (2 * c + 5) >= 6442450944) by (nonlinear_arith)
                requires
                    (dd + 16600) * (2 * c + 3) >= 6442450944,
                    nd >= dd - 1,
                    dd >= 1,
                    0 <= c < 127,
            ;
        }
    }
}

/// A fresh map of `n` contexts, each at probability 1/2 with count 0.
pub open spec fn initial_state_map(n: int) -> StateMapView {
    StateMapView { cxt: 0, map: Seq::new(n as nat, |i: int| 0x8000_0000u32) }
}

impl StateMapView {
    /// The context is a position and every entry is in range.
    pub open spec fn valid(self) -> bool {
        &&& 0 <= self.cxt
        &&& forall|i: int| 0 <= i < self.map.len() ==> #[trigger] entry_in_range(self.map[i])
    }

    /// Updates the entry of the last context with `bit`.
    pub open spec fn update(self, bit: int) -> StateMapView {
        StateMapView {
            cxt: self.cxt,
            map: self.map.update(self.cxt, entry_update(self.map[self.cxt], bit)),
        }
    }

    /// Learns `bit` in the last context, then predicts in context `cxt`:
    /// the new state and the 12-bit probability that the next bit is 1.
    pub open spec fn predict(self, bit: int, cxt: int) -> (StateMapView, int) {
        let s = self.update(bit);
        (StateMapView { cxt, map: s.map }, s.map[cxt] as int / 1048576)
    }
}

/// Predicting trains first and reads after: the map changes only in the
/// last context, whose entry is trained on `bit`; the map moves to `cxt`;
/// and the probability is the top 12 bits of the entry of `cxt` after the
/// training. So in the last context it is the trained entry, elsewhere the
/// entry as it was.
pub proof fn lemma_predict_reads_after_training(s: StateMapView, bit: int, cxt: int)
    requires
        0 <= s.cxt < s.map.len(),
        0 <= cxt < s.map.len(),
    ensures
        s.predict(bit, cxt).0.cxt == cxt,
        s.predict(bit, cxt).0.map.len() == s.map.len(),
        s.predict(bit, cxt).0.map[s.cxt] == entry_update(s.map[s.cxt], bit),
        forall|i: int|
            0 <= i < s.map.len() && i != s.cxt ==> #[trigger] s.predict(bit, cxt).0.map[i] == s.map[i],
        s.predict(bit, cxt).1 == s.predict(bit, cxt).0.map[cxt] as int / 1048576,
        cxt == s.cxt ==> s.predict(bit, cxt).1 == entry_update(s.map[s.cxt], bit) as int / 1048576,
        cxt != s.cxt ==> s.predict(bit, cxt).1 == s.map[cxt] as int / 1048576,
{
}

/// Maps each context to an adaptive probability and a count.
pub struct StateMap {
    cxt: usize,
    cxt_map: Vec<u32>,
    rec: Vec<u16>,
}

impl View for StateMap {
    type V = StateMapView;

    closed spec fn view(&self) -> StateMapView {
        StateMapView { cxt: self.cxt as int, map: self.cxt_map@ }
    }
}

impl StateMap {
    /// The table of step sizes is complete and the view is valid.
    pub closed spec fn wf(&self) -> bool {
        &&& self.rec@.len() == 512
        &&& forall|i: int| 0 <= i < 512 ==> self.rec@[i] == reciprocal(i)
        &&& self@.valid()
    }

    /// A well-formed map has a valid view.
    pub proof fn lemma_valid(&self)
        requires
            self.wf(),
        ensures
            self@.valid(),
    {
    }

    /// A map of `n` contexts, each at probability 1/2 with count 0.
    pub fn new(n: usize) -> (s: Self)
        ensures
            s.wf(),
            s@.valid(),
            s@ =~= initial_state_map(n as int),
    {
        let cxt_map: Vec<u32> = vec![1u32 << 31; n];
        assert(1u32 << 31 == 0x8000_0000u32) by (bit_vector);
        let mut rec: Vec<u16> = Vec::new();
        let mut i: u16 = 0;
        while i < 512
            invariant
                0 <= i <= 512,
                rec@.len() == i,
                forall|k: int| 0 <= k < i ==> rec@[k] == reciprocal(k),
            decreases 512 - i,
        {
            rec.push(32768 / (i + i + 5));
            i += 1;
        }
        proof {
            lemma_initial_entry_in_range();
        }
        StateMap { cxt: 0, cxt_map, rec }
    }

    /// Learns `bit` in the current context, moves to context `cxt`, and
    /// returns its 12-bit probability that the next bit is 1.
    pub fn p(&mut self, bit: i32, cxt: usize) -> (pr: i32)
        requires
            old(self).wf(),
            bit == 0 || bit == 1,
            old(self)@.cxt < old(self)@.map.len(),
            cxt < old(self)@.map.len(),
        ensures
            final(self).wf(),
            final(self)@.valid(),
            (final(self)@, pr as int) == old(self)@.predict(bit as int, cxt as int),
            0 <= pr < 4096,
            final(self)@.cxt == cxt,
            final(self)@.map == old(self)@.map.update(
                old(self)@.cxt,
                entry_update(old(self)@.map[old(self)@.cxt], bit as int),
            ),
            pr as int == final(self)@.map[cxt as int] as int / 1048576,
    {
        self.update(bit);
        let ghost before = self.cxt_map@;
        assert(self@.valid());
        assert(self@.map == before);
        assert(forall|i: int| 0 <= i < before.len() ==> #[trigger] entry_in_range(before[i]));
        self.cxt = cxt;
        assert(self.cxt_map@ == before);
        let v = self.cxt_map[self.cxt];
        assert(v >> 20 == v / 1048576 && v >> 20 < 4096) by (bit_vector);
        (v >> 20) as i32
    }

    /// Learns `bit` in the current context.
    pub fn update(&mut self, bit: i32)
        requires
            old(self).wf(),
            bit == 0 || bit == 1,
            old(self)@.cxt < old(self)@.map.len(),
        ensures
            final(self).wf(),
            final(self)@.valid(),
            final(self)@ == old(self)@.update(bit as int),
    {
        let c = self.cxt;
        let e = self.cxt_map[c];
        let count = (e & 511) as usize;
        let pr = (e >> 14) as i32;
        assert(e & 511 == e % 512 && e >> 14 == e / 16384 && e >> 14 < 262144 && (e % 512 < 127 ==> e
            < 0xFFFF_FFFF)) by (bit_vector);
        if count < LIMIT {
            self.cxt_map.set(c, e + 1);
        }
        let bumped = self.cxt_map[c];
        assert(bit << 18 == bit * 262144) by (bit_vector)
            requires
                bit == 0 || bit == 1,
        ;
        let pr_err = (bit << 18) - pr;
        let rec_v = self.rec[count] as i32;
        assert(reciprocal(count as int) <= 6553) by (nonlinear_arith)
            requires
                0 <= count,
        ;
        assert(-262143 * 6553 <= pr_err * rec_v <= 262144 * 6553) by (nonlinear_arith)
            requires
                -262143 <= pr_err <= 262144,
                0 <= rec_v <= 6553,
        ;
        let m = pr_err * rec_v;
        let update = (m & PR_MSK) as u32;
        proof {
            let um = m as u32;
            assert(update == um - um % 512 && um as int == (if m >= 0 { m as int } else { m as int
                + 4294967296 })) by (bit_vector)
                requires
                    update == (m & -512i32) as u32,
                    um == m as u32,
            ;
            assert(um as int == (m as int) % 4294967296);
            assert(rec_v == reciprocal(count as int));
            assert(m == (bit * 262144 - entry_probability(e)) * reciprocal(entry_count(e)));
            assert(bumped as int == (if entry_count(e) < LIMIT { e + 1 } else { e as int }));
        }
        let ghost old_map = self.cxt_map@;
        self.cxt_map.set(c, bumped.wrapping_add(update));
        proof {
            let sum = bumped as int + update as int;
            assert(0 <= update <= u32::MAX);
            assert(self.cxt_map@[c as int] as int == sum % 4294967296);
            assert(self.cxt_map@ =~= old(self).cxt_map@.update(c as int, entry_update(e, bit as int)));
            assert(entry_in_range(old(self).cxt_map@[c as int]));
            lemma_entry_moves_toward_bit(e, bit as int);
            assert forall|i: int| 0 <= i < self.cxt_map@.len() implies #[trigger] entry_in_range(self.cxt_map@[i]) by {
                if i != c {
                    assert(self.cxt_map@[i] == old(self).cxt_map@[i]);
                    assert(entry_in_range(old(self).cxt_map@[i]));
                }
            }
        }
    }
}

} // verus!
