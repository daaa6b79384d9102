use dicom_codec::basic::{
    BasicDecoder, BigEndianBasicDecoder, Endianness, Error, LittleEndianBasicDecoder,
};

#[test]
fn test_read_integers() {
    let data: &[u8] = &[0xC3, 0x3C, 0x33, 0xCC];

    let le = LittleEndianBasicDecoder;
    let be = BigEndianBasicDecoder;

    assert_eq!(le.decode_us(data).unwrap(), 0x3CC3);
    assert_eq!(be.decode_us(data).unwrap(), 0xC33C);
    assert_eq!(le.decode_ul(data).unwrap(), 0xCC333CC3);
    assert_eq!(be.decode_ul(data).unwrap(), 0xC33C33CC);

    let le = BasicDecoder::new(Endianness::Little);
    let be = BasicDecoder::new(Endianness::Big);

    assert_eq!(le.decode_us(data).unwrap(), 0x3CC3);
    assert_eq!(be.decode_us(data).unwrap(), 0xC33C);
    assert_eq!(le.decode_ul(data).unwrap(), 0xCC333CC3);
    assert_eq!(be.decode_ul(data).unwrap(), 0xC33C33CC);
}

#[test]
fn test_read_signed_integers() {
    let data: &[u8] = &[0xFF, 0xFF, 0xFF, 0xFF];
    let le = LittleEndianBasicDecoder;
    let be = BigEndianBasicDecoder;
    assert_eq!(le.decode_ss(data).unwrap(), -1);
    assert_eq!(be.decode_ss(data).unwrap(), -1);
    assert_eq!(le.decode_sl(data).unwrap(), -1);
    assert_eq!(be.decode_sl(data).unwrap(), -1);

    let data: &[u8] = &[0x00, 0x80, 0x00, 0x00];
    assert_eq!(le.decode_ss(data).unwrap(), i16::MIN);
    assert_eq!(be.decode_ss(data).unwrap(), 0x80);
    assert_eq!(le.decode_sl(data).unwrap(), 0x8000);
    assert_eq!(be.decode_sl(data).unwrap(), 0x00800000);
}

#[test]
fn test_read_u64() {
    let data: &[u8] = &[0x01, 0x02, 0x03, 0x04, 0x05, 0x06, 0x07, 0x08];
    let le = LittleEndianBasicDecoder;
    let be = BigEndianBasicDecoder;
    assert_eq!(le.decode_u64(data).unwrap(), 0x0807060504030201);
    assert_eq!(be.decode_u64(data).unwrap(), 0x0102030405060708);
    assert_eq!(
        BasicDecoder::new(Endianness::Little).decode_u64(data).unwrap(),
        0x0807060504030201
    );
    assert_eq!(
        BasicDecoder::new(Endianness::Big).decode_u64(data).unwrap(),
        0x0102030405060708
    );
}

#[test]
fn test_read_end_of_input() {
    let le = LittleEndianBasicDecoder;
    let be = BigEndianBasicDecoder;
    assert!(matches!(le.decode_us(&[0x01]), Err(Error::UnexpectedEndOfInput)));
    assert!(matches!(be.decode_ul(&[0x01, 0x02, 0x03]), Err(Error::UnexpectedEndOfInput)));
    assert!(matches!(le.decode_ss(&[]), Err(Error::UnexpectedEndOfInput)));
    assert!(matches!(be.decode_sl(&[0x01]), Err(Error::UnexpectedEndOfInput)));
    assert!(matches!(
        le.decode_u64(&[0x01, 0x02, 0x03, 0x04, 0x05, 0x06, 0x07]),
        Err(Error::UnexpectedEndOfInput)
    ));
}

#[test]
fn test_endianness_round_trip() {
    let le = BasicDecoder::new(Endianness::Little);
    let be = BasicDecoder::new(Endianness::Big);
    assert_eq!(le.endianness(), Endianness::Little);
    assert_eq!(be.endianness(), Endianness::Big);
    assert_eq!(LittleEndianBasicDecoder.endianness(), Endianness::Little);
    assert_eq!(BigEndianBasicDecoder.endianness(), Endianness::Big);
    assert_eq!(BasicDecoder::from(Endianness::Big), be);
    assert_eq!(BasicDecoder::from(Endianness::Little), le);
}
