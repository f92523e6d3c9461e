use lib::buffered::{BufferedRead, BufferedWrite, ByteSink, ByteSource};
use lib::coder::{Decoder, Encoder};
use lib::compress::compress;

fn decompress(code: Vec<u8>) -> Vec<u8> {
    let mut dec = Decoder::new(ByteSource::new(code));
    let mut out = Vec::new();
    while let Some(b) = dec.next_byte() {
        out.push(b);
    }
    out
}

fn pseudo_random(n: usize) -> Vec<u8> {
    let mut x: u32 = 12345;
    (0..n)
        .map(|_| {
            x = x.wrapping_mul(1103515245).wrapping_add(12345);
            (x >> 16) as u8
        })
        .collect()
}

#[test]
fn compress_empty_is_one_byte() {
    assert_eq!(compress(Vec::new()), vec![0xFF]);
}

#[test]
fn decompress_of_empty_code_ends_at_once() {
    assert_eq!(decompress(vec![0xFF]), Vec::<u8>::new());
}

#[test]
fn round_trip_small_inputs() {
    for data in [vec![], vec![0u8], vec![255u8], vec![1, 2, 3], b"hello, world".to_vec()] {
        let code = compress(data.clone());
        assert_eq!(decompress(code), data);
    }
}

#[test]
fn round_trip_all_byte_values() {
    let data: Vec<u8> = (0..=255u8).chain((0..=255u8).rev()).collect();
    assert_eq!(decompress(compress(data.clone())), data);
}

#[test]
fn round_trip_pseudo_random() {
    let data = pseudo_random(5000);
    assert_eq!(decompress(compress(data.clone())), data);
}

#[test]
fn round_trip_repetitive_text_and_it_shrinks() {
    let data: Vec<u8> = b"the quick brown fox jumps over the lazy dog. ".iter().cycle().take(20000).copied().collect();
    let code = compress(data.clone());
    assert!(code.len() < data.len() / 3);
    assert_eq!(decompress(code), data);
}

#[test]
fn round_trip_zeros_shrink_a_lot() {
    let data = vec![0u8; 10000];
    let code = compress(data.clone());
    assert!(code.len() < 500);
    assert_eq!(decompress(code), data);
}

#[test]
fn encoder_writes_into_its_sink() {
    let mut enc = Encoder::new(ByteSink::new());
    enc.encode(0);
    enc.flush();
    assert_eq!(enc.into_sink().into_bytes(), vec![0xFF]);
}

#[test]
fn decoder_reads_bits_back() {
    let mut enc = Encoder::new(ByteSink::new());
    let bits = [1, 0, 0, 1, 1, 1, 0, 1, 0, 0, 0, 1];
    for &b in &bits {
        enc.encode(b);
    }
    enc.flush();
    let code = enc.into_sink().into_bytes();
    let mut dec = Decoder::new(ByteSource::new(code));
    for &b in &bits {
        assert_eq!(dec.decode() as i32, b);
    }
}

#[test]
fn byte_source_reads_in_order_then_zero() {
    let mut src = ByteSource::new(vec![7, 9]);
    assert_eq!(src.read_byte(), 7);
    assert_eq!(src.read_byte(), 9);
    assert_eq!(src.read_byte(), 0);
    assert_eq!(src.read_byte(), 0);
}

#[test]
fn byte_source_checked_ends_with_none() {
    let mut src = ByteSource::new(vec![7]);
    assert_eq!(src.read_byte_checked(), Some(7));
    assert_eq!(src.read_byte_checked(), None);
    assert_eq!(src.read_byte_checked(), None);
}

#[test]
fn byte_sink_collects_in_order() {
    let mut sink = ByteSink::new();
    sink.write_byte(3);
    sink.write_byte(4);
    sink.flush_buffer();
    assert_eq!(sink.into_bytes(), vec![3, 4]);
}

#[test]
fn bits_round_trip() {
    let mut x: u32 = 99;
    let bits: Vec<i32> = (0..3000)
        .map(|_| {
            x = x.wrapping_mul(1664525).wrapping_add(1013904223);
            (x >> 31) as i32
        })
        .collect();
    let mut enc = Encoder::new(ByteSink::new());
    for &b in &bits {
        enc.encode(b);
    }
    enc.flush();
    let mut dec = Decoder::new(ByteSource::new(enc.into_sink().into_bytes()));
    for &b in &bits {
        assert_eq!(dec.decode() as i32, b);
    }
}
