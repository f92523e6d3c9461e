//! Compression of a whole byte sequence: each byte is coded as a 1 flag
//! and its eight bits, and a 0 flag ends the data.

use vstd::prelude::*;
use crate::buffered::{BufferedRead, ByteSource, ByteSink};
use crate::coder::{
    Encoder, EncoderView, initial_encoder, byte_bits, data_bits, compress_spec, lemma_byte_bits,
};

verus! {

/// Coding `a` and then `b` is coding `a + b`.
pub proof fn lemma_encode_all_append(e: EncoderView, a: Seq<int>, b: Seq<int>)
    ensures
        e.encode_all(a).encode_all(b) == e.encode_all(a + b),
    decreases b.len(),
{
    if b.len() == 0 {
        assert(a + b =~= a);
    } else {
        lemma_encode_all_append(e, a, b.drop_last());
        assert((a + b).drop_last() =~= a + b.drop_last());
    }
}

proof fn lemma_encode_all_take(e: EncoderView, bits: Seq<int>, k: int)
    requires
        0 <= k < bits.len(),
    ensures
        e.encode_all(bits.take(k + 1)) == e.encode_all(bits.take(k)).encode(bits[k]),
{
    assert(bits.take(k + 1).drop_last() =~= bits.take(k));
}

/// Codes a byte: a 1 flag, then its bits from the most significant.
fn encode_byte(enc: &mut Encoder, byte: u8)
    requires
        old(enc).wf(),
    ensures
        final(enc).wf(),
        final(enc)@ == old(enc)@.encode_all(byte_bits(byte)),
{
    let ghost e0 = enc@;
    let ghost bb = byte_bits(byte);
    proof {
        lemma_byte_bits(byte, 0);
        lemma_encode_all_take(e0, bb, 0);
        assert(bb.take(0) =~= Seq::<int>::empty());
        assert(e0.encode_all(bb.take(0)) == e0);
    }
    enc.encode(1);
    let mut i: u8 = 8;
    while i > 0
        invariant
            0 <= i <= 8,
            enc.wf(),
            bb == byte_bits(byte),
            enc@ == e0.encode_all(bb.take(9 - i)),
        decreases i,
    {
        i -= 1;
        let bit = (byte >> i) & 1;
        proof {
            assert(bit == (byte >> i) % 2) by (bit_vector)
                requires
                    bit == (byte >> i) & 1,
            ;
            vstd::bits::lemma_u8_shr_is_div(byte, i);
            lemma_byte_bits(byte, 8 - i);
            lemma_encode_all_take(e0, bb, 8 - i);
        }
        enc.encode(bit as i32);
    }
    assert(bb.take(9) =~= bb);
}

/// Codes `data`: each byte as a 1 flag and its 8 bits, then a 0 flag, and
/// returns the code.
pub fn compress(data: Vec<u8>) -> (code: Vec<u8>)
    ensures
        code@ == compress_spec(data@),
{
    let ghost input = data@;
    let mut file_in = ByteSource::new(data);
    let mut enc = Encoder::new(ByteSink::new());
    assert(enc@ == initial_encoder().encode_all(data_bits(input.take(0)))) by {
        assert(input.take(0) =~= Seq::<u8>::empty());
        assert(enc@ =~= initial_encoder());
    }
    loop
        invariant
            file_in.wf(),
            file_in@.data == input,
            enc.wf(),
            enc@ == initial_encoder().encode_all(data_bits(input.take(file_in@.pos))),
        ensures
            enc.wf(),
            file_in@.pos == input.len(),
            enc@ == initial_encoder().encode_all(data_bits(input.take(file_in@.pos))),
        decreases input.len() - file_in@.pos,
    {
        let ghost pos = file_in@.pos;
        match file_in.read_byte_checked() {
            Some(byte) => {
                proof {
                    assert(input.take(pos + 1).drop_last() =~= input.take(pos));
                    assert(input.take(pos + 1).last() == byte);
                    assert(data_bits(input.take(pos + 1)) == data_bits(input.take(pos)) + byte_bits(byte));
                    lemma_encode_all_append(
                        initial_encoder(),
                        data_bits(input.take(pos)),
                        byte_bits(byte),
                    );
                }
                encode_byte(&mut enc, byte);
            },
            None => {
                break;
            },
        }
    }
    assert(input.take(input.len() as int) =~= input);
    enc.encode(0);
    proof {
        let bits = data_bits(input);
        assert(bits.push(0).drop_last() =~= bits);
        assert(enc@ == initial_encoder().encode_all(bits.push(0)));
    }
    enc.flush();
    enc.into_sink().into_bytes()
}

} // verus!
