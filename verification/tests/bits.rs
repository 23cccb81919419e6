use cmpr_codecs::bits::BitReader;
use cmpr_codecs::bits::BitWriter;
use cmpr_codecs::testkit::pseudo_random;
use cmpr_codecs::Error;

#[test]
fn lsb_first_layout() {
    let mut w = BitWriter::new();
    w.write_bit(true); // bit 0
    w.write_bits(0b10, 2); // bits 1-2
    w.write_bits(0b11111, 5); // bits 3-7
    w.write_bits(0xABC, 12); // spans two bytes
    assert_eq!(w.bit_len(), 20);
    assert_eq!(w.finish(), [0b1111_1101, 0xBC, 0x0A]);
}

#[test]
fn gamma_sizes() {
    for (n, bits) in [
        (1, 1),
        (2, 3),
        (3, 3),
        (4, 5),
        (7, 5),
        (8, 7),
        (1_000_000, 39),
    ] {
        let mut w = BitWriter::new();
        w.write_gamma(n);
        assert_eq!(w.bit_len(), bits, "gamma({n})");
    }
}

#[test]
fn gamma_extremes() {
    let values = [1, u64::from(u32::MAX), 1 << 32, (1 << 33) + 5, u64::MAX];
    let mut w = BitWriter::new();
    for v in values {
        w.write_gamma(v);
    }
    let bytes = w.finish();
    let mut r = BitReader::new(&bytes);
    for v in values {
        assert_eq!(r.read_gamma().unwrap(), v);
    }
}

#[test]
fn eof_is_an_error() {
    let mut r = BitReader::new(&[0xFF]);
    assert_eq!(r.read_bits(8), Ok(0xFF));
    assert_eq!(r.read_bit(), Err(Error::UnexpectedEof));
    // All-zero input never terminates a gamma code.
    assert!(BitReader::new(&[0; 16]).read_gamma().is_err());
}

#[test]
fn align() {
    let mut w = BitWriter::new();
    w.write_bits(0b101, 3);
    w.align_to_byte();
    w.write_byte(0x42);
    let bytes = w.finish();
    assert_eq!(bytes, [0b101, 0x42]);
    let mut r = BitReader::new(&bytes);
    assert_eq!(r.read_bits(3), Ok(0b101));
    r.align_to_byte();
    assert_eq!(r.read_byte(), Ok(0x42));
    assert_eq!(r.bits_remaining(), 0);
}

#[test]
fn mixed_fields_roundtrip() {
    let noise = pseudo_random(4000, 77);
    let mut fields = Vec::new();
    for c in noise.chunks_exact(5) {
        let n = u32::from(c[0]) % 33;
        let v = u32::from_le_bytes([c[1], c[2], c[3], c[4]]);
        let v = if n == 32 { v } else { v & ((1 << n) - 1) };
        fields.push((n, v));
    }
    let mut w = BitWriter::new();
    for (i, &(n, v)) in fields.iter().enumerate() {
        if i % 3 == 0 {
            w.write_gamma(u64::from(v) + 1);
        }
        w.write_bits(v, n);
    }
    let bits = w.bit_len();
    let bytes = w.finish();
    assert_eq!(bytes.len() as u64, bits.div_ceil(8));
    let mut r = BitReader::new(&bytes);
    for (i, &(n, v)) in fields.iter().enumerate() {
        if i % 3 == 0 {
            assert_eq!(r.read_gamma(), Ok(u64::from(v) + 1));
        }
        assert_eq!(r.read_bits(n), Ok(v));
    }
    assert!(r.bits_remaining() < 8);
}

#[test]
fn peeking_pads_with_zeros_and_consuming_does_not() {
    let mut r = BitReader::new(&[0b1010_0110]);
    assert_eq!(r.peek_bits(4), 0b0110);
    assert_eq!(r.consume(4), Ok(()));
    assert_eq!(r.peek_bits(8), 0b0000_1010);
    assert_eq!(r.consume(5), Err(Error::UnexpectedEof));
    assert_eq!(r.consume(4), Ok(()));
    assert_eq!(r.byte_position(), 1);
}

#[test]
fn gamma_code_longer_than_64_bits_is_corrupt() {
    assert_eq!(
        BitReader::new(&[0; 16]).read_gamma(),
        Err(Error::Corrupt("gamma code longer than 64 bits"))
    );
    assert_eq!(
        BitReader::new(&[0; 7]).read_gamma(),
        Err(Error::UnexpectedEof)
    );
}

#[test]
fn field_sizes_add_up() {
    let mut w = BitWriter::new();
    let mut total = 0;
    for i in 0..200u32 {
        let n = i % 33;
        w.write_bits(((1u64 << n) - 1) as u32, n);
        w.write_bit(i % 3 == 0);
        w.write_byte(i as u8);
        let g = 1 + u64::from(i) * u64::from(i) * 1000;
        w.write_gamma(g);
        total += u64::from(n) + 1 + 8 + 2 * u64::from(g.ilog2()) + 1;
        assert_eq!(w.bit_len(), total);
    }
    assert_eq!(w.finish().len() as u64, (total + 7) / 8);
    let mut w = BitWriter::new();
    w.write_bit(true);
    w.write_gamma(1_000_000);
    w.write_byte(255);
    assert_eq!(w.bit_len(), 1 + 39 + 8);
    assert_eq!(w.finish().len(), 6);
}
