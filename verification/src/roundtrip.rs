//! Decoding the code of some data gives the data back.
//!
//! The argument: the bytes that the encoder ends up writing, read as a
//! 32-bit window at the current output position, always lie in the
//! current interval. So the decoder, which reads that window, picks the
//! same part of the interval as the encoder for every bit.

use vstd::prelude::*;
use crate::buffered::{ByteSourceView, byte_at};
use vstd::arithmetic::power2::pow2;
use crate::coder::{
    top_equal, shift_low, shift_high, settle, settle_in, split_point, EncoderView, DecoderView,
    initial_encoder, initial_decoder, read_window, shift_in, lemma_shift_grows, lemma_settle_ordered,
    lemma_initial_interval,
    lemma_split_point, lemma_differing_tops, byte_bits, bit_of, data_bits, compress_spec,
    lemma_byte_bits,
};
use crate::predictor::lemma_update_pr_range;

verus! {

/// The 32-bit big-endian value of the four bytes of `s` from `i`, with 0
/// past the end.
pub open spec fn window(s: Seq<u8>, i: int) -> int {
    byte_at(s, i) as int * 16777216 + byte_at(s, i + 1) as int * 65536 + byte_at(s, i + 2) as int
        * 256 + byte_at(s, i + 3) as int
}

/// `a` is a prefix of `b`.
pub open spec fn is_prefix(a: Seq<u8>, b: Seq<u8>) -> bool {
    a.len() <= b.len() && b.subrange(0, a.len() as int) == a
}

proof fn lemma_window_step(s: Seq<u8>, i: int)
    ensures
        0 <= window(s, i) < 4294967296,
        window(s, i) == byte_at(s, i) as int * 16777216 + window(s, i + 1) / 256,
        window(s, i + 1) == (window(s, i) % 16777216) * 256 + byte_at(s, i + 4) as int,
{
    let w1 = window(s, i + 1);
    let k = byte_at(s, i + 1) as int * 65536 + byte_at(s, i + 2) as int * 256 + byte_at(s, i + 3) as int;
    assert(w1 == 256 * k + byte_at(s, i + 4) as int);
    vstd::arithmetic::div_mod::lemma_div_multiples_vanish_fancy(k, byte_at(s, i + 4) as int, 256);
    assert(window(s, i) == 16777216 * (byte_at(s, i) as int) + k);
    vstd::arithmetic::div_mod::lemma_mod_multiples_vanish(byte_at(s, i) as int, k, 16777216);
    vstd::arithmetic::div_mod::lemma_small_mod(k as nat, 16777216);
}

proof fn lemma_top_equal_facts(l: u32, h: u32)
    requires
        top_equal(l, h),
    ensures
        l as int / 16777216 == (h >> 24u32) as int,
        h as int / 16777216 == (h >> 24u32) as int,
        l as int == (h >> 24u32) as int * 16777216 + shift_low(l) as int / 256,
        h as int == (h >> 24u32) as int * 16777216 + shift_high(h) as int / 256,
        shift_low(l) as int == (l as int % 16777216) * 256,
        shift_high(h) as int == (h as int % 16777216) * 256 + 255,
{
    lemma_shift_grows(l, h);
    assert((h ^ l) & 0xFF00_0000u32 == 0 ==> l / 16777216 == h >> 24u32 && h / 16777216 == h >> 24u32
        && l == (h >> 24u32) * 16777216 + (l << 8u32) / 256 && h == (h >> 24u32) * 16777216 + (
    ((h << 8u32) + 255) as u32) / 256 && (l << 8u32) == (l % 16777216) * 256 && (((h << 8u32)
        + 255) as u32) == (h % 16777216) * 256 + 255) by (bit_vector);
}

proof fn lemma_top_byte(h: u32)
    ensures
        (h >> 24u32) < 256,
        ((h >> 24u32) as u8) as int == (h >> 24u32) as int,
{
    vstd::bits::lemma_u32_shr_is_div(h, 24);
    vstd::arithmetic::power2::lemma2_to64();
}

proof fn lemma_prefix_trans(a: Seq<u8>, b: Seq<u8>, c: Seq<u8>)
    requires
        is_prefix(a, b),
        is_prefix(b, c),
    ensures
        is_prefix(a, c),
{
    assert(c.subrange(0, a.len() as int) =~= b.subrange(0, a.len() as int));
}

proof fn lemma_settle_extends(l: u32, h: u32, out: Seq<u8>)
    ensures
        is_prefix(out, settle(l, h, out).2),
    decreases 0xFFFF_FFFFint - (h ^ l),
{
    if top_equal(l, h) {
        lemma_shift_grows(l, h);
        let out1 = out.push((h >> 24u32) as u8);
        lemma_settle_extends(shift_low(l), shift_high(h), out1);
        assert(out1.subrange(0, out.len() as int) =~= out);
        lemma_prefix_trans(out, out1, settle(l, h, out).2);
    } else {
        assert(out.subrange(0, out.len() as int) =~= out);
    }
}

/// If the final bytes read from where `settle` leaves the output lie in
/// the interval it leaves, then read from where it starts they lie in the
/// interval it starts from.
pub proof fn lemma_settle_back(l: u32, h: u32, out: Seq<u8>, s: Seq<u8>)
    requires
        l <= h,
        is_prefix(settle(l, h, out).2, s),
        settle(l, h, out).0 <= window(s, settle(l, h, out).2.len() as int) <= settle(l, h, out).1,
    ensures
        is_prefix(out, s),
        l <= window(s, out.len() as int) <= h,
    decreases 0xFFFF_FFFFint - (h ^ l),
{
    lemma_settle_extends(l, h, out);
    lemma_prefix_trans(out, settle(l, h, out).2, s);
    if top_equal(l, h) {
        lemma_shift_grows(l, h);
        let c = (h >> 24u32) as u8;
        let out1 = out.push(c);
        let l1 = shift_low(l);
        let h1 = shift_high(h);
        assert(l1 <= h1) by (bit_vector)
            requires
                l <= h,
                (h ^ l) & 0xFF00_0000u32 == 0,
                l1 == l << 8u32,
                h1 == ((h << 8u32) + 255) as u32,
        ;
        lemma_settle_back(l1, h1, out1, s);
        let n = out.len() as int;
        assert(s.subrange(0, n + 1) == out1);
        assert(s[n] == s.subrange(0, n + 1)[n]);
        assert(byte_at(s, n) == c);
        lemma_top_equal_facts(l, h);
        lemma_window_step(s, n);
        lemma_top_byte(h);
        vstd::arithmetic::div_mod::lemma_div_is_ordered(l1 as int, window(s, n + 1), 256);
        vstd::arithmetic::div_mod::lemma_div_is_ordered(window(s, n + 1), h1 as int, 256);
    }
}

/// The source that a decoder in step with an output of length `i` has:
/// four bytes ahead, or at the end.
pub open spec fn source_at(s: Seq<u8>, i: int) -> ByteSourceView {
    ByteSourceView { data: s, pos: if i + 4 < s.len() { i + 4 } else { s.len() as int } }
}

/// `settle_in` on the window of the final bytes moves the window as
/// `settle` moves the output.
pub proof fn lemma_settle_in_sync(l: u32, h: u32, out: Seq<u8>, x: u32, s: Seq<u8>)
    requires
        x as int == window(s, out.len() as int),
    ensures
        settle_in(l, h, x, source_at(s, out.len() as int)).0 == settle(l, h, out).0,
        settle_in(l, h, x, source_at(s, out.len() as int)).1 == settle(l, h, out).1,
        settle_in(l, h, x, source_at(s, out.len() as int)).2 as int == window(s, settle(l, h, out).2.len() as int),
        settle_in(l, h, x, source_at(s, out.len() as int)).3 == source_at(s, settle(l, h, out).2.len() as int),
    decreases 0xFFFF_FFFFint - (h ^ l),
{
    if top_equal(l, h) {
        lemma_shift_grows(l, h);
        let n = out.len() as int;
        let src = source_at(s, n);
        let r = src.next();
        assert(r.1 == byte_at(s, n + 4));
        assert(r.0 == source_at(s, n + 1));
        lemma_window_step(s, n);
        let x1 = ((x << 8u32) + r.1) as u32;
        let b = r.1;
        assert((x << 8u32) + b <= 0xFFFF_FFFFu32 && (((x << 8u32) + b) as u32) as int == (x as int % 16777216) * 256 + b as int) by (bit_vector);
        let out1 = out.push((h >> 24u32) as u8);
        lemma_settle_in_sync(shift_low(l), shift_high(h), out1, x1, s);
    }
}

/// Flushing leaves, at the start of the final settle, bytes whose window
/// lies in the interval.
pub proof fn lemma_flush_contains(e: EncoderView)
    requires
        e.low <= e.high,
    ensures
        is_prefix(e.out, e.flush()),
        e.low <= window(e.flush(), e.out.len() as int) <= e.high,
{
    let st = settle(e.low, e.high, e.out);
    lemma_settle_ordered(e.low, e.high, e.out);
    let s = e.flush();
    let c = (st.1 >> 24u32) as u8;
    assert(s == st.2.push(c));
    let n = st.2.len() as int;
    assert(byte_at(s, n) == c);
    assert(byte_at(s, n + 1) == 0 && byte_at(s, n + 2) == 0 && byte_at(s, n + 3) == 0);
    let l1 = st.0;
    let h1 = st.1;
    assert(l1 <= h1 && !((h1 ^ l1) & 0xFF00_0000u32 == 0) ==> l1 <= (h1 >> 24u32) * 16777216 <= h1)
        by (bit_vector);
    lemma_top_byte(h1);
    assert(s.subrange(0, n) =~= st.2);
    lemma_settle_back(e.low, e.high, e.out, s);
}

/// The encoder after coding the first `k` of `bits`.
pub open spec fn enc_state(bits: Seq<int>, k: int) -> EncoderView {
    initial_encoder().encode_all(bits.take(k))
}

/// Every bit is 0 or 1.
pub open spec fn all_bits(bits: Seq<int>) -> bool {
    forall|k: int| 0 <= k < bits.len() ==> #[trigger] bits[k] == 0 || bits[k] == 1
}

/// An encoder state whose interval is ordered with differing top bytes and
/// whose probability is a 12-bit value.
pub open spec fn settled(e: EncoderView) -> bool {
    &&& e.low <= e.high
    &&& !top_equal(e.low, e.high)
    &&& 0 <= e.pred.pr < 4096
}

proof fn lemma_enc_state_next(bits: Seq<int>, k: int)
    requires
        0 <= k < bits.len(),
    ensures
        enc_state(bits, k + 1) == enc_state(bits, k).encode(bits[k]),
{
    assert(bits.take(k + 1).drop_last() =~= bits.take(k));
}

proof fn lemma_encode_settled(e: EncoderView, bit: int)
    requires
        settled(e),
        bit == 0 || bit == 1,
    ensures
        settled(e.encode(bit)),
{
    reveal(EncoderView::encode);
    lemma_differing_tops(e.low, e.high);
    lemma_split_point(e.low, e.high, e.pred.pr as u32);
    let mid = split_point(e.low, e.high, e.pred.pr);
    let low = if bit == 1 { e.low } else { (mid + 1) as u32 };
    let high = if bit == 1 { mid as u32 } else { e.high };
    lemma_settle_ordered(low, high, e.out);
    lemma_update_pr_range(e.pred, bit);
}

proof fn lemma_enc_states_settled(bits: Seq<int>, k: int)
    requires
        all_bits(bits),
        0 <= k <= bits.len(),
    ensures
        settled(enc_state(bits, k)),
    decreases k,
{
    if k == 0 {
        assert(bits.take(0) =~= Seq::<int>::empty());
        lemma_initial_interval();
    } else {
        lemma_enc_states_settled(bits, k - 1);
        lemma_enc_state_next(bits, k - 1);
        lemma_encode_settled(enc_state(bits, k - 1), bits[k - 1]);
    }
}

/// One coded bit, seen backward: containment of the final bytes after it
/// gives containment before it, and the side of the split point that the
/// window lies on is the bit.
proof fn lemma_encode_back(e: EncoderView, bit: int, s: Seq<u8>)
    requires
        settled(e),
        bit == 0 || bit == 1,
        is_prefix(e.encode(bit).out, s),
        e.encode(bit).low <= window(s, e.encode(bit).out.len() as int) <= e.encode(bit).high,
    ensures
        is_prefix(e.out, s),
        e.low <= window(s, e.out.len() as int) <= e.high,
        (window(s, e.out.len() as int) <= split_point(e.low, e.high, e.pred.pr)) == (bit == 1),
{
    reveal(EncoderView::encode);
    lemma_differing_tops(e.low, e.high);
    lemma_split_point(e.low, e.high, e.pred.pr as u32);
    let mid = split_point(e.low, e.high, e.pred.pr);
    let low = if bit == 1 { e.low } else { (mid + 1) as u32 };
    let high = if bit == 1 { mid as u32 } else { e.high };
    lemma_settle_back(low, high, e.out, s);
}

/// For every prefix of the bits, the final code read at the encoder's
/// output position lies in the encoder's interval.
pub proof fn lemma_contain(bits: Seq<int>, k: int)
    requires
        all_bits(bits),
        0 <= k <= bits.len(),
    ensures
        is_prefix(enc_state(bits, k).out, enc_state(bits, bits.len() as int).flush()),
        enc_state(bits, k).low <= window(
            enc_state(bits, bits.len() as int).flush(),
            enc_state(bits, k).out.len() as int,
        ) <= enc_state(bits, k).high,
        k < bits.len() ==> (window(
            enc_state(bits, bits.len() as int).flush(),
            enc_state(bits, k).out.len() as int,
        ) <= split_point(
            enc_state(bits, k).low,
            enc_state(bits, k).high,
            enc_state(bits, k).pred.pr,
        )) == (bits[k] == 1),
    decreases bits.len() - k,
{
    let n = bits.len() as int;
    let s = enc_state(bits, n).flush();
    lemma_enc_states_settled(bits, k);
    if k == n {
        lemma_flush_contains(enc_state(bits, n));
    } else {
        lemma_contain(bits, k + 1);
        lemma_enc_state_next(bits, k);
        lemma_encode_back(enc_state(bits, k), bits[k], s);
    }
}

/// A decoder in step with an encoder state, over the final code `s`.
pub open spec fn synced(d: DecoderView, e: EncoderView, s: Seq<u8>) -> bool {
    &&& d.pred == e.pred
    &&& d.low == e.low
    &&& d.high == e.high
    &&& d.x as int == window(s, e.out.len() as int)
    &&& d.src == source_at(s, e.out.len() as int)
}

/// A decoder in step with the encoder after `k` bits decodes bit `k` and
/// stays in step.
pub proof fn lemma_decode_sync(bits: Seq<int>, k: int, d: DecoderView)
    requires
        all_bits(bits),
        0 <= k < bits.len(),
        synced(d, enc_state(bits, k), enc_state(bits, bits.len() as int).flush()),
    ensures
        d.decode().1 == bits[k],
        synced(d.decode().0, enc_state(bits, k + 1), enc_state(bits, bits.len() as int).flush()),
{
    reveal(EncoderView::encode);
    reveal(DecoderView::decode);
    let s = enc_state(bits, bits.len() as int).flush();
    let e = enc_state(bits, k);
    lemma_contain(bits, k);
    lemma_enc_state_next(bits, k);
    let mid = split_point(e.low, e.high, e.pred.pr);
    let bit = bits[k];
    let low = if bit == 1 { e.low } else { (mid + 1) as u32 };
    let high = if bit == 1 { mid as u32 } else { e.high };
    lemma_settle_in_sync(low, high, e.out, d.x, s);
}

proof fn lemma_shift_in_value(x: u32, b: u8)
    requires
        x < 16777216,
    ensures
        (((x << 8u32) + b) as u32) as int == x as int * 256 + b as int,
{
    assert(x < 16777216 ==> (((x << 8u32) + b) as u32) == x * 256 + b) by (bit_vector);
}

/// The fresh decoder over the final code `s` is in step with the fresh
/// encoder.
pub proof fn lemma_initial_sync(s: Seq<u8>)
    ensures
        synced(initial_decoder(ByteSourceView { data: s, pos: 0 }), initial_encoder(), s),
{
    let src = ByteSourceView { data: s, pos: 0 };
    let w1 = read_window(src, 1);
    let w2 = read_window(src, 2);
    let w3 = read_window(src, 3);
    let w4 = read_window(src, 4);
    assert(read_window(src, 0) == (0u32, src));
    assert(w1.1 == src.next().0);
    lemma_shift_in_value(0, src.next().1);
    assert(w1.0 as int == byte_at(s, 0) as int);
    assert(w1.1 == source_at(s, -3));
    lemma_shift_in_value(w1.0, w1.1.next().1);
    assert(w2.0 as int == byte_at(s, 0) as int * 256 + byte_at(s, 1) as int);
    assert(w2.1 == source_at(s, -2));
    lemma_shift_in_value(w2.0, w2.1.next().1);
    assert(w3.0 as int == byte_at(s, 0) as int * 65536 + byte_at(s, 1) as int * 256 + byte_at(s, 2) as int);
    assert(w3.1 == source_at(s, -1));
    lemma_shift_in_value(w3.0, w3.1.next().1);
    assert(w4.1 == source_at(s, 0));
}

/// The bits of `data`: nine per byte, in order.
proof fn lemma_data_bits(data: Seq<u8>)
    ensures
        data_bits(data).len() == 9 * data.len(),
        forall|i: int, j: int|
            0 <= i < data.len() && 0 <= j < 9 ==> #[trigger] data_bits(data)[9 * i + j] == byte_bits(
                data[i],
            )[j],
    decreases data.len(),
{
    if data.len() > 0 {
        let init = data.drop_last();
        lemma_data_bits(init);
        lemma_byte_bits(data.last(), 0);
        assert forall|i: int, j: int| 0 <= i < data.len() && 0 <= j < 9 implies #[trigger] data_bits(
            data,
        )[9 * i + j] == byte_bits(data[i])[j] by {
            if i < data.len() - 1 {
                assert(data_bits(init)[9 * i + j] == byte_bits(init[i])[j]);
            }
        }
    }
}

/// The bits coded for `data`: those of its bytes, then a 0 flag.
pub open spec fn stream_bits(data: Seq<u8>) -> Seq<int> {
    data_bits(data).push(0)
}

proof fn lemma_stream_bits(data: Seq<u8>)
    ensures
        stream_bits(data).len() == 9 * data.len() + 1,
        all_bits(stream_bits(data)),
        stream_bits(data)[9 * data.len() as int] == 0,
        forall|i: int, j: int|
            0 <= i < data.len() && 0 <= j < 9 ==> #[trigger] stream_bits(data)[9 * i + j] == byte_bits(
                data[i],
            )[j],
{
    lemma_data_bits(data);
    assert forall|k: int| 0 <= k < stream_bits(data).len() implies #[trigger] stream_bits(data)[k] == 0
        || stream_bits(data)[k] == 1 by {
        if k < 9 * data.len() {
            let i = k / 9;
            let j = k % 9;
            assert(k == 9 * i + j);
            lemma_byte_bits(data[i], j);
            assert(stream_bits(data)[9 * i + j] == byte_bits(data[i])[j]);
        }
    }
    assert forall|i: int, j: int| 0 <= i < data.len() && 0 <= j < 9 implies #[trigger] stream_bits(
        data,
    )[9 * i + j] == byte_bits(data[i])[j] by {
        assert(data_bits(data)[9 * i + j] == byte_bits(data[i])[j]);
        assert(9 * i + j < 9 * data.len()) by (nonlinear_arith)
            requires
                0 <= i < data.len(),
                0 <= j < 9,
        ;
    }
}

/// The value a byte's bits build up after `j` of them, starting from 1:
/// a leading 1 above the top `j` bits, in 8 bits.
pub open spec fn partial_byte(b: u8, j: int) -> int {
    (pow2(j as nat) as int + b as int / (pow2((8 - j) as nat) as int)) % 256
}

proof fn lemma_partial_bits(x: u32, j: u32)
    by (bit_vector)
    requires
        x < 256,
        j < 8,
    ensures
        ((((1u32 << j) + (x >> (8 - j) as u32)) % 256) * 2) % 256 + (x >> (7 - j) as u32) % 2 == ((1u32
            << (j + 1) as u32) + (x >> (7 - j) as u32)) % 256,
        ((1u32 << 0u32) + (x >> 8u32)) % 256 == 1,
        ((1u32 << 8u32) + (x >> 0u32)) % 256 == x,
{
}

proof fn lemma_partial_byte_step(b: u8, j: int)
    requires
        0 <= j < 8,
    ensures
        (partial_byte(b, j) * 2) % 256 + bit_of(b, 7 - j) == partial_byte(b, j + 1),
        partial_byte(b, 0) == 1,
        partial_byte(b, 8) == b,
{
    let x: u32 = b as u32;
    let ju: u32 = j as u32;
    lemma_partial_bits(x, ju);
    vstd::arithmetic::power2::lemma2_to64();
    vstd::bits::lemma_u32_shr_is_div(x, (8 - ju) as u32);
    vstd::bits::lemma_u32_shr_is_div(x, (7 - ju) as u32);
    vstd::bits::lemma_u32_shr_is_div(x, 8);
    vstd::bits::lemma_u32_shr_is_div(x, 0);
    vstd::bits::lemma_u32_shl_is_mul(1, ju);
    vstd::bits::lemma_u32_shl_is_mul(1, (ju + 1) as u32);
    vstd::bits::lemma_u32_shl_is_mul(1, 0);
    vstd::bits::lemma_u32_shl_is_mul(1, 8);
}

/// A decoder in step at bit `j` of byte `i` finishes the byte with the
/// byte's value, in step after it.
proof fn lemma_decode_byte(data: Seq<u8>, i: int, j: int, d: DecoderView, acc: u8)
    requires
        0 <= i < data.len(),
        0 <= j <= 8,
        synced(d, enc_state(stream_bits(data), 9 * i + 1 + j), enc_state(stream_bits(data), (9 * data.len() + 1) as int).flush()),
        acc as int == partial_byte(data[i], j),
    ensures
        d.decode_bits((8 - j) as nat, acc).1 == data[i],
        synced(d.decode_bits((8 - j) as nat, acc).0, enc_state(stream_bits(data), 9 * i + 9), enc_state(stream_bits(data), (9 * data.len() + 1) as int).flush()),
    decreases 8 - j,
{
    let bits = stream_bits(data);
    lemma_stream_bits(data);
    lemma_partial_byte_step(data[i], 0);
    if j < 8 {
        let k = 9 * i + 1 + j;
        assert(k < bits.len()) by (nonlinear_arith)
            requires
                k == 9 * i + 1 + j,
                0 <= i < data.len(),
                j < 8,
                bits.len() == 9 * data.len() + 1,
        ;
        lemma_decode_sync(bits, k, d);
        assert(bits[9 * i + (1 + j)] == byte_bits(data[i])[1 + j]);
        lemma_byte_bits(data[i], 1 + j);
        lemma_partial_byte_step(data[i], j);
        let nd = d.decode();
        let nacc = ((acc as int * 2) % 256 + nd.1) as u8;
        lemma_decode_byte(data, i, j + 1, nd.0, nacc);
    }
}

/// Decodes up to `n` bytes, stopping at the end of the data: the bytes,
/// and whether the end was reached.
pub open spec fn decode_stream(d: DecoderView, n: nat) -> (Seq<u8>, bool)
    decreases n,
{
    if n == 0 {
        (Seq::empty(), false)
    } else {
        let r = d.next_byte();
        match r.1 {
            None => (Seq::empty(), true),
            Some(b) => {
                let rest = decode_stream(r.0, (n - 1) as nat);
                (seq![b] + rest.0, rest.1)
            },
        }
    }
}

proof fn lemma_decode_rest(data: Seq<u8>, i: int, d: DecoderView)
    requires
        0 <= i <= data.len(),
        synced(d, enc_state(stream_bits(data), 9 * i), enc_state(stream_bits(data), (9 * data.len() + 1) as int).flush()),
    ensures
        decode_stream(d, (data.len() - i + 1) as nat) == (data.subrange(i, data.len() as int), true),
    decreases data.len() - i,
{
    let bits = stream_bits(data);
    lemma_stream_bits(data);
    lemma_decode_sync(bits, 9 * i, d);
    let d1 = d.decode();
    if i == data.len() {
        assert(data.subrange(i, data.len() as int) =~= Seq::<u8>::empty());
    } else {
        assert(bits[9 * i + 0] == byte_bits(data[i])[0]);
        lemma_byte_bits(data[i], 0);
        lemma_partial_byte_step(data[i], 0);
        lemma_decode_byte(data, i, 0, d1.0, 1u8);
        let r = d1.0.decode_bits(8, 1);
        assert(9 * i + 9 == 9 * (i + 1));
        lemma_decode_rest(data, i + 1, r.0);
        assert(seq![data[i]] + data.subrange(i + 1, data.len() as int) =~= data.subrange(i, data.len() as int));
    }
}

/// Round trip: decoding the code of `data` yields the bytes of `data`,
/// then the end of the data.
pub proof fn lemma_round_trip(data: Seq<u8>)
    ensures
        decode_stream(
            initial_decoder(ByteSourceView { data: compress_spec(data), pos: 0 }),
            (data.len() + 1) as nat,
        ) == (data, true),
{
    let bits = stream_bits(data);
    lemma_stream_bits(data);
    assert(bits.take(bits.len() as int) =~= bits);
    assert(bits.take(0) =~= Seq::<int>::empty());
    let s = compress_spec(data);
    assert(s == enc_state(bits, (9 * data.len() + 1) as int).flush());
    lemma_initial_sync(s);
    assert(enc_state(bits, 0) == initial_encoder());
    lemma_decode_rest(data, 0, initial_decoder(ByteSourceView { data: s, pos: 0 }));
    assert(data.subrange(0, data.len() as int) =~= data);
}

/// Decodes `n` bits in order.
pub open spec fn decode_seq(d: DecoderView, n: nat) -> Seq<int>
    decreases n,
{
    if n == 0 {
        Seq::empty()
    } else {
        let r = d.decode();
        seq![r.1] + decode_seq(r.0, (n - 1) as nat)
    }
}

proof fn lemma_decode_seq_rest(bits: Seq<int>, k: int, d: DecoderView)
    requires
        all_bits(bits),
        0 <= k <= bits.len(),
        synced(d, enc_state(bits, k), enc_state(bits, bits.len() as int).flush()),
    ensures
        decode_seq(d, (bits.len() - k) as nat) == bits.subrange(k, bits.len() as int),
    decreases bits.len() - k,
{
    if k == bits.len() {
        assert(bits.subrange(k, k) =~= Seq::<int>::empty());
    } else {
        lemma_decode_sync(bits, k, d);
        lemma_decode_seq_rest(bits, k + 1, d.decode().0);
        assert(seq![bits[k]] + bits.subrange(k + 1, bits.len() as int) =~= bits.subrange(
            k,
            bits.len() as int,
        ));
    }
}

/// Round trip of bits: decoding the flushed code of any sequence of 0 and
/// 1 bits yields those bits.
pub proof fn lemma_bits_round_trip(bits: Seq<int>)
    requires
        all_bits(bits),
    ensures
        decode_seq(
            initial_decoder(ByteSourceView { data: initial_encoder().encode_all(bits).flush(), pos: 0 }),
            bits.len(),
        ) == bits,
{
    assert(bits.take(bits.len() as int) =~= bits);
    assert(bits.take(0) =~= Seq::<int>::empty());
    let s = enc_state(bits, bits.len() as int).flush();
    lemma_initial_sync(s);
    assert(enc_state(bits, 0) == initial_encoder());
    lemma_decode_seq_rest(bits, 0, initial_decoder(ByteSourceView { data: s, pos: 0 }));
    assert(bits.subrange(0, bits.len() as int) =~= bits);
}

/// A decoder step matches an encoder step: a decoder with the encoder's
/// predictor and interval decodes 1 exactly when its code lies at or below
/// the split point, and then holds the predictor and interval the encoder
/// holds after coding that bit; it shifts into its code as many bytes of
/// its source as the encoder writes.
pub proof fn lemma_decode_matches_encode(d: DecoderView, e: EncoderView)
    requires
        d.pred == e.pred,
        d.low == e.low,
        d.high == e.high,
    ensures
        d.decode().1 == 0 || d.decode().1 == 1,
        (d.decode().1 == 1) == (d.x <= split_point(e.low, e.high, e.pred.pr)),
        d.decode().0.pred == e.encode(d.decode().1).pred,
        d.decode().0.low == e.encode(d.decode().1).low,
        d.decode().0.high == e.encode(d.decode().1).high,
        e.encode(d.decode().1).out.len() >= e.out.len(),
        d.decode().0.x == shift_in(
            d.x,
            d.src,
            (e.encode(d.decode().1).out.len() - e.out.len()) as nat,
        ).0,
        d.decode().0.src == shift_in(
            d.x,
            d.src,
            (e.encode(d.decode().1).out.len() - e.out.len()) as nat,
        ).1,
{
    reveal(EncoderView::encode);
    reveal(DecoderView::decode);
    let mid = split_point(e.low, e.high, e.pred.pr);
    let bit: int = if d.x <= mid { 1 } else { 0 };
    let low = if bit == 1 { e.low } else { (mid + 1) as u32 };
    let high = if bit == 1 { mid as u32 } else { e.high };
    crate::coder::lemma_settle_in_matches(low, high, d.x, d.src, e.out);
}

} // verus!
