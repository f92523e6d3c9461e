//! `Predictor`: estimates the probability that the next bit is 1 from the
//! bit history of the current partial byte, refined by a chain of
//! adaptive probability maps over wider contexts.

use vstd::prelude::*;
use crate::squash::{build_stretch_table, is_stretch_table};
use crate::state_table::{next_state, next_state_spec};
use crate::state_map::{StateMap, StateMapView, initial_state_map};
use crate::apm::{Apm, ApmView, initial_apm, apm_target};

verus! {

/// A `Predictor` seen as the partial byte with a leading 1 (`cxt`), the
/// last whole bytes (`cxt4`), the current 12-bit probability that the
/// next bit is 1 (`pr`), the bit-history state per partial byte, the
/// `StateMap` over bit histories, and the five probability maps.
#[verifier::ext_equal]
pub struct PredictorView {
    pub cxt: int,
    pub cxt4: usize,
    pub pr: int,
    pub state: Seq<u8>,
    pub sm: StateMapView,
    pub apm: Seq<ApmView>,
}

/// The context of the last probability map: the partial byte mixed with a
/// 14-bit hash of the last three bytes.
pub open spec fn hashed_context(cxt: int, cxt4: usize) -> int {
    let h = ((cxt4 as int % 16777216) * 123456791) % 4294967296 / 262144;
    ((cxt as u32) ^ (h as u32)) as int
}

/// The predictor before any bit.
pub open spec fn initial_predictor() -> PredictorView {
    PredictorView {
        cxt: 0,
        cxt4: 0,
        pr: 2048,
        state: Seq::new(256, |i: int| 0u8),
        sm: initial_state_map(65536),
        apm: seq![
            initial_apm(256),
            initial_apm(256),
            initial_apm(65536),
            initial_apm(8192),
            initial_apm(16384),
        ],
    }
}

/// A map view with the given number of contexts, 33 bins each, whose
/// last used bin has a successor.
pub open spec fn apm_view_ready(a: ApmView, n: int) -> bool {
    &&& a.cxts == n
    &&& a.bins.len() == n * 33
    &&& 0 <= a.bin
    &&& a.bin + 1 < a.bins.len()
}

impl PredictorView {
    /// The partial byte is below 256, the probability is a 12-bit value,
    /// every bit-history state is at most 252, and the tables have the
    /// sizes of a fresh predictor.
    pub open spec fn valid(self) -> bool {
        &&& 0 <= self.cxt < 256
        &&& 0 <= self.pr < 4096
        &&& self.state.len() == 256
        &&& forall|i: int| 0 <= i < 256 ==> #[trigger] self.state[i] <= 252
        &&& self.sm.valid()
        &&& self.sm.map.len() == 65536
        &&& self.sm.cxt < 65536
        &&& self.apm.len() == 5
        &&& forall|i: int| 0 <= i < 5 ==> #[trigger] apm_view_ready(self.apm[i], apm_size(i))
    }

    /// Moves the bit history of the partial byte on by `bit`, extends the
    /// partial byte (shifting a completed byte into `cxt4`), and takes the
    /// probability of the `StateMap` in the new bit history.
    pub open spec fn advance(self, bit: int) -> PredictorView {
        let state = self.state.update(
            self.cxt,
            next_state_spec(self.state[self.cxt] as int, bit) as u8,
        );
        let c = 2 * self.cxt + bit;
        let cxt = if c >= 256 { 0 } else { c };
        let cxt4 = if c >= 256 { (self.cxt4 << 8usize) | ((c - 256) as usize) } else { self.cxt4 };
        let sm_step = self.sm.predict(bit, state[cxt] as int);
        PredictorView { cxt, cxt4, pr: sm_step.1, state, sm: sm_step.0, ..self }
    }

    /// Trains the probability maps on `bit` and refines the probability
    /// through them: two over the partial byte averaged, one over the last
    /// byte too, one over five more bits, and one over a hash of the last
    /// three bytes, each blended with what came before.
    pub open spec fn mix(self, bit: int) -> PredictorView {
        let cxt = self.cxt;
        let cxt4 = self.cxt4;
        let s0 = self.apm[0].refine(bit, 5, self.pr, cxt);
        let s1 = self.apm[1].refine(bit, 9, self.pr, cxt);
        let p1 = (s0.1 + s1.1 + 1) / 2;
        let s2 = self.apm[2].refine(bit, 7, p1, cxt + 256 * (cxt4 as int % 256));
        let p2 = s2.1;
        let s3 = self.apm[3].refine(bit, 7, p2, cxt + 256 * (cxt4 as int / 256 % 32));
        let p3 = (s3.1 * 3 + p2 + 2) / 4;
        let s4 = self.apm[4].refine(bit, 7, p3, hashed_context(cxt, cxt4));
        PredictorView {
            pr: (s4.1 + p3 + 1) / 2,
            apm: seq![s0.0, s1.0, s2.0, s3.0, s4.0],
            ..self
        }
    }

    /// Learns `bit` and predicts the next one.
    pub open spec fn update(self, bit: int) -> PredictorView {
        self.advance(bit).mix(bit)
    }
}

/// Advancing on `bit` moves the bit history of the partial byte on by the
/// state table, extends the partial byte by `bit` (starting over after a
/// whole byte), trains the `StateMap` on `bit` in its last context, and
/// takes as the probability what the trained map says in the bit history
/// of the new partial byte, which becomes its context.
pub proof fn lemma_advance_reads_new_history(v: PredictorView, bit: int)
    requires
        v.valid(),
        bit == 0 || bit == 1,
    ensures
        v.advance(bit).cxt == (if 2 * v.cxt + bit >= 256 { 0 } else { 2 * v.cxt + bit }),
        v.advance(bit).state == v.state.update(
            v.cxt,
            crate::state_table::STATE_TABLE@[v.state[v.cxt] as int]@[bit],
        ),
        v.advance(bit).sm.cxt == v.advance(bit).state[v.advance(bit).cxt] as int,
        v.advance(bit).sm.map == v.sm.update(bit).map,
        v.advance(bit).pr == v.advance(bit).sm.map[v.advance(bit).sm.cxt] as int / 1048576,
{
}

/// Whatever the state, the probability after a bit is a 12-bit value.
pub proof fn lemma_update_pr_range(v: PredictorView, bit: int)
    ensures
        0 <= v.update(bit).pr < 4096,
{
    let a = v.advance(bit);
    let cxt = a.cxt;
    let cxt4 = a.cxt4;
    crate::apm::lemma_refine_range(a.apm[0], bit, 5, a.pr, cxt);
    crate::apm::lemma_refine_range(a.apm[1], bit, 9, a.pr, cxt);
    let s0 = a.apm[0].refine(bit, 5, a.pr, cxt);
    let s1 = a.apm[1].refine(bit, 9, a.pr, cxt);
    let p1 = (s0.1 + s1.1 + 1) / 2;
    crate::apm::lemma_refine_range(a.apm[2], bit, 7, p1, cxt + 256 * (cxt4 as int % 256));
    let p2 = a.apm[2].refine(bit, 7, p1, cxt + 256 * (cxt4 as int % 256)).1;
    crate::apm::lemma_refine_range(a.apm[3], bit, 7, p2, cxt + 256 * (cxt4 as int / 256 % 32));
    let s3 = a.apm[3].refine(bit, 7, p2, cxt + 256 * (cxt4 as int / 256 % 32));
    let p3 = (s3.1 * 3 + p2 + 2) / 4;
    crate::apm::lemma_refine_range(a.apm[4], bit, 7, p3, hashed_context(cxt, cxt4));
}

/// The bit predictor: a `StateMap` over bit histories refined by five
/// adaptive probability maps.
pub struct Predictor {
    cxt: usize,
    cxt4: usize,
    pr: i32,
    state: [u8; 256],
    sm: StateMap,
    apm: [Apm; 5],
    stretch_table: [i16; 4096],
}

impl View for Predictor {
    type V = PredictorView;

    closed spec fn view(&self) -> PredictorView {
        PredictorView {
            cxt: self.cxt as int,
            cxt4: self.cxt4,
            pr: self.pr as int,
            state: self.state@,
            sm: self.sm@,
            apm: self.apm@.map_values(|a: Apm| a@),
        }
    }
}

/// The number of contexts of each probability map.
pub open spec fn apm_size(i: int) -> int {
    if i == 0 || i == 1 {
        256
    } else if i == 2 {
        65536
    } else if i == 3 {
        8192
    } else {
        16384
    }
}

/// A map with 33 bins per context, whose last used bin has a successor.
pub open spec fn apm_ready(a: &Apm, n: int) -> bool {
    &&& a.wf()
    &&& a@.cxts == n
    &&& a@.bin + 1 < a@.bins.len()
}

impl Predictor {
    /// The sizes of the tables are those of `new`, the partial byte is
    /// below 256, and the probability is a 12-bit value.
    pub closed spec fn wf(&self) -> bool {
        &&& self.cxt < 256
        &&& 0 <= self.pr < 4096
        &&& self.sm.wf()
        &&& self.sm@.map.len() == 65536
        &&& 0 <= self.sm@.cxt < 65536
        &&& is_stretch_table(self.stretch_table@)
        &&& forall|i: int| 0 <= i < 5 ==> #[trigger] apm_ready(&self.apm@[i], apm_size(i))
        &&& forall|i: int| 0 <= i < 256 ==> #[trigger] self.state@[i] <= 252
        &&& self.sm@.valid()
    }

    /// A well-formed predictor has a valid view.
    pub proof fn lemma_valid(&self)
        requires
            self.wf(),
        ensures
            self@.valid(),
    {
        assert forall|i: int| 0 <= i < 5 implies #[trigger] apm_view_ready(self@.apm[i], apm_size(i)) by {
            assert(apm_ready(&self.apm@[i], apm_size(i)));
        }
    }

    /// A predictor before any bit: probability 1/2.
    pub fn new() -> (p: Self)
        ensures
            p.wf(),
            p@.valid(),
            p@ =~= initial_predictor(),
    {
        let apm = [Apm::new(256), Apm::new(256), Apm::new(65536), Apm::new(8192), Apm::new(16384)];
        let p = Predictor {
            cxt: 0,
            cxt4: 0,
            pr: 2048,
            state: [0u8; 256],
            sm: StateMap::new(65536),
            apm,
            stretch_table: build_stretch_table(),
        };
        assert(p@.apm =~= initial_predictor().apm);
        assert(p@.state =~= initial_predictor().state);
        proof {
            p.lemma_valid();
        }
        p
    }

    /// The 12-bit probability that the next bit is 1.
    pub fn p(&self) -> (r: i32)
        requires
            self.wf(),
        ensures
            r == self@.pr,
            0 <= r < 4096,
            self@.valid(),
    {
        proof {
            self.lemma_valid();
        }
        self.pr
    }

    /// Learns `bit` and predicts the next one.
    pub fn update(&mut self, bit: i32)
        requires
            old(self).wf(),
            bit == 0 || bit == 1,
        ensures
            final(self).wf(),
            final(self)@.valid(),
            final(self)@ == old(self)@.update(bit as int),
    {
        self.advance(bit);
        self.mix(bit);
        proof {
            self.lemma_valid();
        }
    }

    fn advance(&mut self, bit: i32)
        requires
            old(self).wf(),
            bit == 0 || bit == 1,
        ensures
            final(self).wf(),
            final(self)@ == old(self)@.advance(bit as int),
    {
        let s = self.state[self.cxt];
        proof {
            crate::state_table::lemma_next_state_closed(s as int, bit as int);
        }
        self.state[self.cxt] = next_state(s, bit);
        self.cxt += self.cxt + bit as usize;
        if self.cxt >= 256 {
            self.cxt4 = (self.cxt4 << 8) | (self.cxt - 256);
            self.cxt = 0;
        }
        self.pr = self.sm.p(bit, self.state[self.cxt] as usize);
        assert(self@.apm =~= old(self)@.apm);
        assert(forall|i: int| 0 <= i < 256 ==> #[trigger] self.state@[i] <= 252);
    }

    fn mix(&mut self, bit: i32)
        requires
            old(self).wf(),
            bit == 0 || bit == 1,
        ensures
            final(self).wf(),
            final(self)@ == old(self)@.mix(bit as int),
    {
        proof {
            vstd::arithmetic::power2::lemma2_to64();
            vstd::arithmetic::power2::lemma_pow2_pos(5);
            vstd::arithmetic::power2::lemma_pow2_pos(7);
            vstd::arithmetic::power2::lemma_pow2_pos(9);
            assert(apm_target(bit as int, 5) >= 0 && apm_target(bit as int, 7) >= 0 && apm_target(bit as int, 9) >= 0);
            assert(apm_ready(&self.apm@[0], apm_size(0)));
            assert(apm_ready(&self.apm@[1], apm_size(1)));
            assert(apm_ready(&self.apm@[2], apm_size(2)));
            assert(apm_ready(&self.apm@[3], apm_size(3)));
            assert(apm_ready(&self.apm@[4], apm_size(4)));
        }
        let cxt = self.cxt;
        let q0 = self.apm[0].p(&self.stretch_table, bit, 5, self.pr, cxt);
        let q1 = self.apm[1].p(&self.stretch_table, bit, 9, self.pr, cxt);
        let sum1 = q0 + q1 + 1;
        proof {
            crate::apm::lemma_i32_shr_is_div(sum1, 1);
        }
        self.pr = sum1 >> 1;

        let c4 = self.cxt4;
        let pc = self.cxt;
        let cxt = pc | (c4 << 8) & 0xFF00;
        assert(cxt == pc + 256 * (c4 % 256) && cxt < 65536) by (bit_vector)
            requires
                cxt == pc | (c4 << 8) & 0xFF00,
                pc < 256,
        ;
        self.pr = self.apm[2].p(&self.stretch_table, bit, 7, self.pr, cxt);

        let cxt = pc | (c4 & 0x1F00);
        assert(cxt == pc + 256 * (c4 / 256 % 32) && cxt < 8192) by (bit_vector)
            requires
                cxt == pc | (c4 & 0x1F00),
                pc < 256,
        ;
        let q3 = self.apm[3].p(&self.stretch_table, bit, 7, self.pr, cxt);
        let sum3 = q3 * 3 + self.pr + 2;
        proof {
            crate::apm::lemma_i32_shr_is_div(sum3, 2);
        }
        self.pr = sum3 >> 2;

        let low = (c4 as u32) & 0xFFFFFF;
        assert(low == c4 % 16777216) by (bit_vector)
            requires
                low == (c4 as u32) & 0xFFFFFF,
        ;
        let hash = low.wrapping_mul(123456791) >> 18;
        let ghost m = low.wrapping_mul(123456791);
        assert(m >> 18 == m / 262144 && m >> 18 < 16384) by (bit_vector);
        let cxt = ((pc as u32) ^ hash) as usize;
        assert(((pc as u32) ^ hash) < 16384) by (bit_vector)
            requires
                pc < 256,
                hash < 16384,
        ;
        let q4 = self.apm[4].p(&self.stretch_table, bit, 7, self.pr, cxt);
        let sum4 = q4 + self.pr + 1;
        proof {
            crate::apm::lemma_i32_shr_is_div(sum4, 1);
        }
        self.pr = sum4 >> 1;
        proof {
            let v = old(self)@.mix(bit as int);
            assert(self@.apm =~= v.apm);
            assert forall|i: int| 0 <= i < 5 implies #[trigger] apm_ready(&self.apm@[i], apm_size(i)) by {
            }
        }
    }
}

} // verus!
