use gobx::decode::Decoder;
use gobx::encode::Encoder;
use gobx::error::GobError;

#[test]
fn test_uint_encoding() {
    let tests: Vec<(u64, Vec<u8>)> = vec![
        (0, vec![0]),
        (127, vec![127]),
        (128, vec![255, 128]),
        (256, vec![254, 1, 0]),
    ];

    for (val, expected) in tests {
        let mut enc = Encoder::new(Vec::new());
        enc.write_uint(val).unwrap();
        let buf = enc.into_inner();
        assert_eq!(buf, expected, "Failed encoding {}", val);

        let mut dec = Decoder::new(buf);
        let decoded = dec.read_uint().unwrap();
        assert_eq!(decoded, val, "Failed decoding {}", val);
    }
}

#[test]
fn test_int_encoding() {
    let tests: Vec<(i64, i64)> = vec![(0, 0), (-1, -1), (1, 1), (-128, -128), (128, 128)];

    for (val, _) in tests {
        let mut enc = Encoder::new(Vec::new());
        enc.write_int(val).unwrap();

        let mut dec = Decoder::new(enc.into_inner());
        let decoded = dec.read_int().unwrap();
        assert_eq!(decoded, val, "Failed decoding {}", val);
    }
}

#[test]
fn test_string_encoding() {
    let val = "Hello World";
    let mut enc = Encoder::new(Vec::new());
    enc.write_string(val).unwrap();

    let mut dec = Decoder::new(enc.into_inner());
    let decoded = dec.read_string().unwrap();
    assert_eq!(decoded, val);
}

#[test]
fn uvarint_examples() {
    for (v, expected) in [
        (0u64, vec![0x00u8]),
        (127, vec![0x7F]),
        (128, vec![0xFF, 0x80]),
        (256, vec![0xFE, 0x01, 0x00]),
        (u64::MAX, vec![0xF8, 255, 255, 255, 255, 255, 255, 255, 255]),
    ] {
        let mut enc = Encoder::new(Vec::new());
        enc.write_uint(v).unwrap();
        assert_eq!(enc.into_inner(), expected);
    }
}

#[test]
fn int_examples() {
    for (v, expected) in [
        (-1i64, vec![0x01u8]),
        (1, vec![0x02]),
        (-128, vec![0xFF, 0xFF]),
        (i64::MIN, vec![0xF8, 255, 255, 255, 255, 255, 255, 255, 255]),
    ] {
        let mut enc = Encoder::new(Vec::new());
        enc.write_int(v).unwrap();
        assert_eq!(enc.into_inner(), expected);
    }
}

#[test]
fn int_with_a_leading_zero_byte_is_read() {
    let mut dec = Decoder::new(vec![0xFE, 0x00, 0xFF]);
    assert_eq!(dec.read_int(), Ok(-128));
}

#[test]
fn int_round_trips_at_the_ends() {
    for v in [i64::MIN, i64::MIN + 1, -1, 0, 1, i64::MAX - 1, i64::MAX] {
        let mut enc = Encoder::new(Vec::new());
        enc.write_int(v).unwrap();
        let mut dec = Decoder::new(enc.into_inner());
        assert_eq!(dec.read_int(), Ok(v));
    }
}

#[test]
fn float_examples() {
    let mut enc = Encoder::new(Vec::new());
    enc.write_float(0.0f64.to_bits()).unwrap();
    assert_eq!(enc.into_inner(), vec![0x00]);

    let mut enc = Encoder::new(Vec::new());
    enc.write_float(1.0f64.to_bits()).unwrap();
    let bytes = enc.into_inner();
    assert_eq!(bytes, vec![0xFE, 0xF0, 0x3F]);
    let mut dec = Decoder::new(bytes);
    assert_eq!(f64::from_bits(dec.read_float().unwrap()), 1.0);
}

#[test]
fn float_keeps_every_bit() {
    for f in [f64::NAN, -f64::NAN, f64::INFINITY, -0.0, 1e-310, std::f64::consts::PI] {
        let mut enc = Encoder::new(Vec::new());
        enc.write_float(f.to_bits()).unwrap();
        let mut dec = Decoder::new(enc.into_inner());
        assert_eq!(dec.read_float(), Ok(f.to_bits()));
    }
}

#[test]
fn bool_examples() {
    let mut enc = Encoder::new(Vec::new());
    enc.write_bool(true).unwrap();
    enc.write_bool(false).unwrap();
    let bytes = enc.into_inner();
    assert_eq!(bytes, vec![1, 0]);
    let mut dec = Decoder::new(bytes);
    assert_eq!(dec.read_bool(), Ok(true));
    assert_eq!(dec.read_bool(), Ok(false));
    let mut dec = Decoder::new(vec![2]);
    assert_eq!(dec.read_bool(), Err(GobError::InvalidData));
}

#[test]
fn uvarint_errors() {
    // nothing to read
    assert_eq!(Decoder::new(vec![]).read_uint(), Err(GobError::TruncatedMessage));
    // nine bytes announced
    assert_eq!(
        Decoder::new(vec![0xF7, 1, 2, 3, 4, 5, 6, 7, 8, 9]).read_uint(),
        Err(GobError::InvalidData)
    );
    // two bytes announced, one there
    assert_eq!(Decoder::new(vec![0xFE, 1]).read_uint(), Err(GobError::InvalidData));
    // leading zeros are read
    assert_eq!(Decoder::new(vec![0xFE, 0, 5]).read_uint(), Ok(5));
}

#[test]
fn string_errors() {
    assert_eq!(Decoder::new(vec![2, 0xC3, 0x28]).read_string(), Err(GobError::InvalidData));
    assert_eq!(Decoder::new(vec![3, b'a', b'b']).read_string(), Err(GobError::TruncatedMessage));
    assert_eq!(Decoder::new(vec![2, 0xC3, 0xA9]).read_string(), Ok("é".to_string()));
}

#[test]
fn bytes_round_trip() {
    let mut enc = Encoder::new(Vec::new());
    enc.write_bytes(&[1, 2, 3]).unwrap();
    enc.write_u8(9).unwrap();
    enc.write_all(&[7, 7]).unwrap();
    let bytes = enc.into_inner();
    assert_eq!(bytes, vec![3, 1, 2, 3, 9, 7, 7]);
    let mut dec = Decoder::new(bytes);
    assert_eq!(dec.read_bytes(), Ok(vec![1, 2, 3]));
    assert_eq!(dec.read_u8(), Ok(9));
    assert_eq!(dec.read_exact_bytes(2), Ok(vec![7, 7]));
    assert_eq!(dec.read_exact_bytes(1), Err(GobError::TruncatedMessage));
}
