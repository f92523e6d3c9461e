//! The binary arithmetic coder: an interval `[low, high]` of 32-bit
//! values is split at the predicted probability for every bit, and
//! leading bytes shared by both ends are shifted out.

use vstd::prelude::*;
use crate::predictor::{Predictor, PredictorView, initial_predictor};
use vstd::arithmetic::power2::pow2;
use crate::buffered::{BufferedRead, BufferedWrite, ByteSource, ByteSourceView, ByteSink};

verus! {

/// The interval is split where the share of `p / 4096` of it, rounded
/// down, ends: the part up to `mid` codes a 1, the part above a 0.
pub open spec fn split_point(low: u32, high: u32, p: int) -> int {
    low + (high - low) * p / 4096
}

/// Both ends of the interval start with the same byte.
pub open spec fn top_equal(low: u32, high: u32) -> bool {
    (high ^ low) & 0xFF00_0000u32 == 0
}

/// `low` after its top byte is shifted out.
pub open spec fn shift_low(low: u32) -> u32 {
    low << 8u32
}

/// `high` after its top byte is shifted out, filling with ones.
pub open spec fn shift_high(high: u32) -> u32 {
    ((high << 8u32) + 255) as u32
}

/// Shifting out a shared top byte makes the ends differ more, and fills
/// `high` without overflow.
pub proof fn lemma_shift_grows(low: u32, high: u32)
    requires
        top_equal(low, high),
    ensures
        (shift_high(high) ^ shift_low(low)) > (high ^ low),
        shift_high(high) as int == (high << 8u32) + 255,
{
    assert((high ^ low) & 0xFF00_0000u32 == 0 ==> (((high << 8u32) + 255) as u32 ^ (low << 8u32))
        > (high ^ low) && (high << 8u32) + 255 <= 0xFFFF_FFFFu32) by (bit_vector);
}

/// Shifts out the leading bytes shared by `low` and `high`, appending them
/// to `out`.
pub open spec fn settle(low: u32, high: u32, out: Seq<u8>) -> (u32, u32, Seq<u8>)
    decreases 0xFFFF_FFFFint - (high ^ low),
{
    if top_equal(low, high) {
        proof {
            lemma_shift_grows(low, high);
        }
        settle(shift_low(low), shift_high(high), out.push((high >> 24u32) as u8))
    } else {
        (low, high, out)
    }
}

/// An `Encoder` seen as its predictor, its interval and the bytes it has
/// written.
pub struct EncoderView {
    pub pred: PredictorView,
    pub high: u32,
    pub low: u32,
    pub out: Seq<u8>,
}

/// The encoder before any bit.
pub open spec fn initial_encoder() -> EncoderView {
    EncoderView { pred: initial_predictor(), high: 0xFFFF_FFFF, low: 0, out: Seq::empty() }
}

impl EncoderView {
    /// The interval is ordered with differing top bytes, and the predictor
    /// is valid.
    pub open spec fn valid(self) -> bool {
        &&& self.low < self.high
        &&& !top_equal(self.low, self.high)
        &&& self.pred.valid()
    }

    /// Codes `bit`: keeps the part of the interval that stands for it,
    /// lets the predictor learn it, and shifts out settled bytes.
    #[verifier::opaque]
    pub open spec fn encode(self, bit: int) -> EncoderView {
        let mid = split_point(self.low, self.high, self.pred.pr);
        let low = if bit == 1 { self.low } else { (mid + 1) as u32 };
        let high = if bit == 1 { mid as u32 } else { self.high };
        let s = settle(low, high, self.out);
        EncoderView { pred: self.pred.update(bit), high: s.1, low: s.0, out: s.2 }
    }

    /// Codes `bits` in order.
    pub open spec fn encode_all(self, bits: Seq<int>) -> EncoderView
        decreases bits.len(),
    {
        if bits.len() == 0 {
            self
        } else {
            self.encode_all(bits.drop_last()).encode(bits.last())
        }
    }

    /// Ends the code: shifts out settled bytes, then writes the top byte
    /// of `high`.
    pub open spec fn flush(self) -> Seq<u8> {
        let s = settle(self.low, self.high, self.out);
        s.2.push((s.1 >> 24u32) as u8)
    }
}

/// Reads the shifted-in bytes for the leading bytes shared by `low` and
/// `high`, as `settle` shifts them out.
pub open spec fn settle_in(low: u32, high: u32, x: u32, src: ByteSourceView) -> (u32, u32, u32, ByteSourceView)
    decreases 0xFFFF_FFFFint - (high ^ low),
{
    if top_equal(low, high) {
        proof {
            lemma_shift_grows(low, high);
        }
        let r = src.next();
        settle_in(shift_low(low), shift_high(high), ((x << 8u32) + r.1) as u32, r.0)
    } else {
        (low, high, x, src)
    }
}

/// Shifts `n` bytes of `src` into the 32-bit code `x`, one at a time from
/// the right, dropping what leaves on the left.
pub open spec fn shift_in(x: u32, src: ByteSourceView, n: nat) -> (u32, ByteSourceView)
    decreases n,
{
    if n == 0 {
        (x, src)
    } else {
        let r = src.next();
        shift_in(((x as int * 256 + r.1 as int) % 4294967296) as u32, r.0, (n - 1) as nat)
    }
}

/// A `Decoder` seen as its predictor, its interval, the 32 bits of code
/// it is looking at, and its source.
pub struct DecoderView {
    pub pred: PredictorView,
    pub high: u32,
    pub low: u32,
    pub x: u32,
    pub src: ByteSourceView,
}

/// The first four bytes of `src`, big-endian, with 0 past the end, and the
/// source after them.
pub open spec fn read_window(src: ByteSourceView, n: nat) -> (u32, ByteSourceView)
    decreases n,
{
    if n == 0 {
        (0u32, src)
    } else {
        let prev = read_window(src, (n - 1) as nat);
        let r = prev.1.next();
        (((prev.0 << 8u32) + r.1) as u32, r.0)
    }
}

/// The decoder over the code in `src`, before any bit.
pub open spec fn initial_decoder(src: ByteSourceView) -> DecoderView {
    let w = read_window(src, 4);
    DecoderView { pred: initial_predictor(), high: 0xFFFF_FFFF, low: 0, x: w.0, src: w.1 }
}

impl DecoderView {
    /// The interval is ordered with differing top bytes, the predictor is
    /// valid, and the source's position lies within its bytes.
    pub open spec fn valid(self) -> bool {
        &&& self.low < self.high
        &&& !top_equal(self.low, self.high)
        &&& self.pred.valid()
        &&& 0 <= self.src.pos <= self.src.data.len()
    }

    /// Decodes a bit: 1 when the code lies in the part of the interval up
    /// to the split point; then narrows, learns and shifts as the encoder.
    #[verifier::opaque]
    pub open spec fn decode(self) -> (DecoderView, int) {
        let mid = split_point(self.low, self.high, self.pred.pr);
        let bit: int = if self.x <= mid { 1 } else { 0 };
        let low = if bit == 1 { self.low } else { (mid + 1) as u32 };
        let high = if bit == 1 { mid as u32 } else { self.high };
        let s = settle_in(low, high, self.x, self.src);
        (DecoderView { pred: self.pred.update(bit), low: s.0, high: s.1, x: s.2, src: s.3 }, bit)
    }

    /// Decodes `n` bits into the low end of `acc`, most significant first,
    /// in 8 bits.
    pub open spec fn decode_bits(self, n: nat, acc: u8) -> (DecoderView, u8)
        decreases n,
    {
        if n == 0 {
            (self, acc)
        } else {
            let d = self.decode();
            d.0.decode_bits((n - 1) as nat, ((acc as int * 2) % 256 + d.1) as u8)
        }
    }

    /// Decodes the flag bit that precedes each byte: 0 ends the data; 1
    /// is followed by the 8 bits of a byte.
    pub open spec fn next_byte(self) -> (DecoderView, Option<u8>) {
        let d = self.decode();
        if d.1 == 0 {
            (d.0, None)
        } else {
            let r = d.0.decode_bits(8, 1);
            (r.0, Some(r.1))
        }
    }
}

/// Bit `i` of `b`, counted from the least significant.
pub open spec fn bit_of(b: u8, i: int) -> int {
    (b as int / pow2(i as nat) as int) % 2
}

/// The bits coded for a byte: a 1 flag, then its 8 bits, most significant
/// first.
pub open spec fn byte_bits(b: u8) -> Seq<int> {
    seq![1int] + Seq::new(8, |j: int| bit_of(b, 7 - j))
}

/// The bits of a byte are 0 or 1, after a 1 flag.
pub proof fn lemma_byte_bits(b: u8, j: int)
    requires
        0 <= j < 9,
    ensures
        byte_bits(b).len() == 9,
        byte_bits(b)[j] == 0 || byte_bits(b)[j] == 1,
        j == 0 ==> byte_bits(b)[j] == 1,
        j > 0 ==> byte_bits(b)[j] == bit_of(b, 8 - j),
{
    let tail = Seq::new(8, |i: int| bit_of(b, 7 - i));
    assert(byte_bits(b) =~= seq![1int] + tail);
    if j > 0 {
        assert(byte_bits(b)[j] == tail[j - 1]);
    }
}

/// The bits coded for `data`, byte by byte.
pub open spec fn data_bits(data: Seq<u8>) -> Seq<int>
    decreases data.len(),
{
    if data.len() == 0 {
        Seq::empty()
    } else {
        data_bits(data.drop_last()) + byte_bits(data.last())
    }
}

/// The code of `data`: its bits followed by a 0 flag, coded from the
/// initial encoder and flushed.
pub open spec fn compress_spec(data: Seq<u8>) -> Seq<u8> {
    initial_encoder().encode_all(data_bits(data).push(0)).flush()
}

/// `settle` keeps the interval ordered and stops with differing top bytes.
pub proof fn lemma_settle_ordered(low: u32, high: u32, out: Seq<u8>)
    requires
        low <= high,
    ensures
        settle(low, high, out).0 <= settle(low, high, out).1,
        !top_equal(settle(low, high, out).0, settle(low, high, out).1),
    decreases 0xFFFF_FFFFint - (high ^ low),
{
    if top_equal(low, high) {
        lemma_shift_grows(low, high);
        assert(shift_low(low) <= shift_high(high)) by (bit_vector)
            requires
                low <= high,
                (high ^ low) & 0xFF00_0000u32 == 0,
        ;
        lemma_settle_ordered(shift_low(low), shift_high(high), out.push((high >> 24u32) as u8));
    }
}

/// An ordered interval whose ends differ in their top bytes is not a
/// single value.
pub proof fn lemma_differing_tops(low: u32, high: u32)
    requires
        low <= high,
        !top_equal(low, high),
    ensures
        low < high,
{
    assert(low <= high && !((high ^ low) & 0xFF00_0000u32 == 0) ==> low < high) by (bit_vector);
}

/// The split point computed in 32 bits from the range in two pieces,
/// and it lies in the interval, short of its top.
pub proof fn lemma_split_point(low: u32, high: u32, p: u32)
    requires
        low < high,
        p < 4096,
    ensures
        ((high - low) / 4096) * p + (((high - low) % 4096) * p) / 4096 == split_point(low, high, p as int) - low,
        low <= split_point(low, high, p as int) < high,
{
    let r: u32 = (high - low) as u32;
    let lo = r as int % 4096;
    vstd::arithmetic::div_mod::lemma_fundamental_div_mod(r as int, 4096);
    let q = r as int / 4096;
    assert(r as int * p == 4096 * (q * p) + lo * p) by (nonlinear_arith)
        requires
            r as int == 4096 * q + lo,
    ;
    vstd::arithmetic::div_mod::lemma_hoist_over_denominator(lo * p, q * p, 4096);
    assert(q * p + (lo * p) / 4096 == (r * p) / 4096) by {
        assert((lo * p + (q * p) * 4096) == r as int * p) by (nonlinear_arith)
            requires
                r as int * p == 4096 * (q * p) + lo * p,
        ;
    }
    assert(0 <= (r * p) / 4096 < r) by (nonlinear_arith)
        requires
            r >= 1,
            p < 4096,
    ;
}

/// The whole interval has differing top bytes.
pub proof fn lemma_initial_interval()
    ensures
        !top_equal(0, 0xFFFF_FFFF),
{
    assert(!((0xFFFF_FFFFu32 ^ 0u32) & 0xFF00_0000u32 == 0)) by (bit_vector);
}

/// The two pieces of a range, and the shift of a product, as divisions.
proof fn lemma_range_parts(range: u32, prod: u32)
    by (bit_vector)
    ensures
        range >> 12u32 == range / 4096,
        range & 0x0FFFu32 == range % 4096,
        prod >> 12u32 == prod / 4096,
{
}

/// Codes bits into bytes written to a `ByteSink`.
pub struct Encoder {
    predictor: Predictor,
    high: u32,
    low: u32,
    file_out: ByteSink,
}

impl View for Encoder {
    type V = EncoderView;

    closed spec fn view(&self) -> EncoderView {
        EncoderView { pred: self.predictor@, high: self.high, low: self.low, out: self.file_out@ }
    }
}

impl Encoder {
    /// The predictor is well formed and the interval is ordered with
    /// differing top bytes.
    pub closed spec fn wf(&self) -> bool {
        &&& self.predictor.wf()
        &&& self.low <= self.high
        &&& !top_equal(self.low, self.high)
    }

    /// A well-formed encoder has a valid view.
    pub proof fn lemma_valid(&self)
        requires
            self.wf(),
        ensures
            self@.valid(),
    {
        self.predictor.lemma_valid();
        lemma_differing_tops(self.low, self.high);
    }

    /// An encoder writing to `file_out`, with the whole interval.
    pub fn new(file_out: ByteSink) -> (e: Self)
        ensures
            e.wf(),
            e@.valid(),
            e@ == (EncoderView { out: file_out@, ..initial_encoder() }),
    {
        let e = Encoder { predictor: Predictor::new(), high: 0xFFFF_FFFF, low: 0, file_out };
        proof {
            lemma_initial_interval();
            e.lemma_valid();
        }
        e
    }

    /// Codes `bit`.
    #[verifier::rlimit(40)]
    pub fn encode(&mut self, bit: i32)
        requires
            old(self).wf(),
            bit == 0 || bit == 1,
        ensures
            final(self).wf(),
            final(self)@.valid(),
            final(self)@ == old(self)@.encode(bit as int),
    {
        reveal(EncoderView::encode);
        let p = self.predictor.p() as u32;
        proof {
            lemma_differing_tops(self.low, self.high);
            lemma_split_point(self.low, self.high, p);
        }
        let range = self.high - self.low;
        proof {
            lemma_range_parts(range, 0);
        }
        let hi_part = range >> 12;
        let lo_part = range & 0x0FFF;
        assert(hi_part * p <= 1048575 * 4095 && lo_part * p <= 4095 * 4095) by (nonlinear_arith)
            requires
                hi_part <= 1048575,
                lo_part <= 4095,
                p <= 4095,
        ;
        let lo_prod = lo_part * p;
        proof {
            lemma_range_parts(range, lo_prod);
        }
        let mid = self.low + hi_part * p + (lo_prod >> 12);
        if bit == 1 {
            self.high = mid;
        } else {
            self.low = mid + 1;
        }
        self.predictor.update(bit);
        let ghost target = settle(self.low, self.high, self.file_out@);
        proof {
            lemma_settle_ordered(self.low, self.high, self.file_out@);
        }
        while ((self.high ^ self.low) & 0xFF00_0000) == 0
            invariant
                settle(self.low, self.high, self.file_out@) == target,
                self.predictor.wf(),
                self.predictor@ == old(self)@.pred.update(bit as int),
            decreases 0xFFFF_FFFFint - (self.high ^ self.low),
        {
            proof {
                lemma_shift_grows(self.low, self.high);
            }
            self.file_out.write_byte((self.high >> 24) as u8);
            self.high = (self.high << 8) + 255;
            self.low <<= 8;
        }
    proof {
            self.lemma_valid();
        }
    }

    /// The sink, with the bytes written.
    pub fn into_sink(self) -> (sink: ByteSink)
        ensures
            sink@ == self@.out,
    {
        self.file_out
    }

    /// Ends the code.
    #[verifier::rlimit(40)]
    pub fn flush(&mut self)
        requires
            old(self).wf(),
        ensures
            final(self).wf(),
            final(self)@.valid(),
            final(self)@.out == old(self)@.flush(),
            final(self)@.pred == old(self)@.pred,
            final(self)@.low == settle(old(self)@.low, old(self)@.high, old(self)@.out).0,
            final(self)@.high == settle(old(self)@.low, old(self)@.high, old(self)@.out).1,
    {
        let ghost target = settle(self.low, self.high, self.file_out@);
        proof {
            lemma_settle_ordered(self.low, self.high, self.file_out@);
        }
        while ((self.high ^ self.low) & 0xFF00_0000) == 0
            invariant
                settle(self.low, self.high, self.file_out@) == target,
                self.predictor@ == old(self)@.pred,
                self.predictor.wf(),
            decreases 0xFFFF_FFFFint - (self.high ^ self.low),
        {
            proof {
                lemma_shift_grows(self.low, self.high);
            }
            self.file_out.write_byte((self.high >> 24) as u8);
            self.high = (self.high << 8) + 255;
            self.low <<= 8;
        }
        self.file_out.write_byte((self.high >> 24) as u8);
        self.file_out.flush_buffer();
        proof {
            self.lemma_valid();
        }
    }
}

/// Decodes bits from the code read from a `ByteSource`.
pub struct Decoder {
    predictor: Predictor,
    high: u32,
    low: u32,
    x: u32,
    file_in: ByteSource,
}

impl View for Decoder {
    type V = DecoderView;

    closed spec fn view(&self) -> DecoderView {
        DecoderView {
            pred: self.predictor@,
            high: self.high,
            low: self.low,
            x: self.x,
            src: self.file_in@,
        }
    }
}

proof fn lemma_shift_in(x: u32, b: u8)
    ensures
        (x << 8u32) + b <= u32::MAX,
{
    assert((x << 8u32) + b <= 0xFFFF_FFFFu32) by (bit_vector);
}

impl Decoder {
    /// The predictor and the source are well formed and the interval is
    /// ordered with differing top bytes.
    pub closed spec fn wf(&self) -> bool {
        &&& self.predictor.wf()
        &&& self.file_in.wf()
        &&& self.low <= self.high
        &&& !top_equal(self.low, self.high)
    }

    /// A well-formed decoder has a valid view.
    pub proof fn lemma_valid(&self)
        requires
            self.wf(),
        ensures
            self@.valid(),
    {
        self.predictor.lemma_valid();
        lemma_differing_tops(self.low, self.high);
    }

    /// A decoder over the code in `file_in`, having read its first four
    /// bytes.
    #[verifier::rlimit(40)]
    pub fn new(file_in: ByteSource) -> (d: Self)
        requires
            file_in.wf(),
        ensures
            d.wf(),
            d@.valid(),
            d@ == initial_decoder(file_in@),
    {
        let ghost src = file_in@;
        let mut dec = Decoder { predictor: Predictor::new(), high: 0xFFFF_FFFF, low: 0, x: 0, file_in };
        proof {
            lemma_initial_interval();
        }
        let mut i: usize = 0;
        while i < 4
            invariant
                0 <= i <= 4,
                dec.file_in.wf(),
                dec.predictor.wf(),
                dec.predictor@ == initial_predictor(),
                dec.high == 0xFFFF_FFFF,
                dec.low == 0,
                (dec.x, dec.file_in@) == read_window(src, i as nat),
            decreases 4 - i,
        {
            let b = dec.file_in.read_byte();
            proof {
                lemma_shift_in(dec.x, b);
            }
            dec.x = (dec.x << 8) + b as u32;
            i += 1;
        }
        proof {
            dec.lemma_valid();
        }
        dec
    }

    /// Decodes a bit.
    #[verifier::rlimit(40)]
    pub fn decode(&mut self) -> (bit: u8)
        requires
            old(self).wf(),
        ensures
            final(self).wf(),
            final(self)@.valid(),
            (final(self)@, bit as int) == old(self)@.decode(),
            bit <= 1,
    {
        reveal(DecoderView::decode);
        let p = self.predictor.p() as u32;
        proof {
            lemma_differing_tops(self.low, self.high);
            lemma_split_point(self.low, self.high, p);
        }
        let range = self.high - self.low;
        proof {
            lemma_range_parts(range, 0);
        }
        let hi_part = range >> 12;
        let lo_part = range & 0x0FFF;
        assert(hi_part * p <= 1048575 * 4095 && lo_part * p <= 4095 * 4095) by (nonlinear_arith)
            requires
                hi_part <= 1048575,
                lo_part <= 4095,
                p <= 4095,
        ;
        let lo_prod = lo_part * p;
        proof {
            lemma_range_parts(range, lo_prod);
        }
        let mid = self.low + hi_part * p + (lo_prod >> 12);

        let mut bit: i32 = 0;
        if self.x <= mid {
            bit = 1;
            self.high = mid;
        } else {
            self.low = mid + 1;
        }
        self.predictor.update(bit);
        let ghost target = settle_in(self.low, self.high, self.x, self.file_in@);
        proof {
            lemma_settle_ordered(self.low, self.high, Seq::empty());
            lemma_settle_in_matches(self.low, self.high, self.x, self.file_in@, Seq::empty());
        }
        while ((self.high ^ self.low) & 0xFF00_0000) == 0
            invariant
                settle_in(self.low, self.high, self.x, self.file_in@) == target,
                self.file_in.wf(),
                self.predictor.wf(),
                self.predictor@ == old(self)@.pred.update(bit as int),
            decreases 0xFFFF_FFFFint - (self.high ^ self.low),
        {
            proof {
                lemma_shift_grows(self.low, self.high);
            }
            self.high = (self.high << 8) + 255;
            self.low <<= 8;
            let b = self.file_in.read_byte();
            proof {
                lemma_shift_in(self.x, b);
            }
            self.x = (self.x << 8) + b as u32;
        }
        proof {
            self.lemma_valid();
        }
        bit as u8
    }

    /// Decodes the next byte of the data, or `None` at its end.
    #[verifier::rlimit(40)]
    pub fn next_byte(&mut self) -> (r: Option<u8>)
        requires
            old(self).wf(),
        ensures
            final(self).wf(),
            final(self)@.valid(),
            (final(self)@, r) == old(self)@.next_byte(),
    {
        if self.decode() == 0 {
            proof {
                self.lemma_valid();
            }
            return None;
        }
        let ghost d1 = self@;
        let mut acc: u8 = 1;
        let mut k: usize = 0;
        while k < 8
            invariant
                0 <= k <= 8,
                self.wf(),
                d1.decode_bits(8, 1) == self@.decode_bits((8 - k) as nat, acc),
            decreases 8 - k,
        {
            let b = self.decode();
            assert(((acc << 1) + b) as int == (acc as int * 2) % 256 + b && (acc << 1) + b <= 255)
                by (bit_vector)
                requires
                    b <= 1,
            ;
            acc = (acc << 1) + b;
            k += 1;
        }
        proof {
            self.lemma_valid();
        }
        Some(acc)
    }
}

/// `settle_in` ends on the interval that `settle` ends on, and shifts into
/// the code as many bytes as `settle` writes.
pub proof fn lemma_settle_in_matches(low: u32, high: u32, x: u32, src: ByteSourceView, out: Seq<u8>)
    ensures
        settle_in(low, high, x, src).0 == settle(low, high, out).0,
        settle_in(low, high, x, src).1 == settle(low, high, out).1,
        settle(low, high, out).2.len() >= out.len(),
        settle_in(low, high, x, src).2 == shift_in(
            x,
            src,
            (settle(low, high, out).2.len() - out.len()) as nat,
        ).0,
        settle_in(low, high, x, src).3 == shift_in(
            x,
            src,
            (settle(low, high, out).2.len() - out.len()) as nat,
        ).1,
    decreases 0xFFFF_FFFFint - (high ^ low),
{
    if top_equal(low, high) {
        lemma_shift_grows(low, high);
        let r = src.next();
        let b = r.1;
        let x1 = ((x << 8u32) + b) as u32;
        assert(x1 as int == (x as int * 256 + b as int) % 4294967296) by {
            assert((((x << 8u32) + b) as u32) as int == (x as int * 256 + b as int) % 4294967296)
                by (bit_vector);
        }
        let out1 = out.push((high >> 24u32) as u8);
        lemma_settle_in_matches(shift_low(low), shift_high(high), x1, r.0, out1);
        let k = (settle(low, high, out).2.len() - out.len()) as nat;
        assert(k >= 1);
        assert(shift_in(x, src, k) == shift_in(x1, r.0, (k - 1) as nat));
    }
}

} // verus!
