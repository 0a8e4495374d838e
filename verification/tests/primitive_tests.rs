use idl_skip::cursor::Cursor;
use idl_skip::errors::IdlError;
use idl_skip::utf8::utf8_validate_range;
use idl_skip::varint::leb128_decode;
use idl_skip::varint::skip_leb128;
use idl_skip::varint::sleb128_decode;

fn leb(bytes: &[u8]) -> Result<u32, IdlError> {
    let data = bytes.to_vec();
    let mut c = Cursor::new(&data);
    leb128_decode(&data, &mut c)
}

fn sleb(bytes: &[u8]) -> Result<i32, IdlError> {
    let data = bytes.to_vec();
    let mut c = Cursor::new(&data);
    sleb128_decode(&data, &mut c)
}

#[test]
fn unsigned_varints_decode() {
    assert_eq!(leb(&[0x00]), Ok(0));
    assert_eq!(leb(&[0x7F]), Ok(127));
    assert_eq!(leb(&[0x80, 0x01]), Ok(128));
    assert_eq!(leb(&[0xE5, 0x8E, 0x26]), Ok(624485));
    assert_eq!(leb(&[0xFF, 0xFF, 0xFF, 0xFF, 0x0F]), Ok(0xFFFF_FFFF));
}

#[test]
fn unsigned_varint_overflow() {
    assert_eq!(leb(&[0xFF, 0xFF, 0xFF, 0xFF, 0x1F]), Err(IdlError::VarintOverflow));
    assert_eq!(
        leb(&[0x80, 0x80, 0x80, 0x80, 0x80, 0x01]),
        Err(IdlError::VarintOverflow)
    );
    assert_eq!(leb(&[0x80, 0x80]), Err(IdlError::BufferExhausted));
    assert_eq!(leb(&[]), Err(IdlError::BufferExhausted));
}

#[test]
fn signed_varints_decode() {
    assert_eq!(sleb(&[0x00]), Ok(0));
    assert_eq!(sleb(&[0x3F]), Ok(63));
    assert_eq!(sleb(&[0x40]), Ok(-64));
    assert_eq!(sleb(&[0x7F]), Ok(-1));
    assert_eq!(sleb(&[0x71]), Ok(-15));
    assert_eq!(sleb(&[0x6C]), Ok(-20));
    assert_eq!(sleb(&[0xC0, 0x00]), Ok(64));
    assert_eq!(sleb(&[0xC0, 0xBB, 0x78]), Ok(-123456));
    assert_eq!(sleb(&[0xFF, 0xFF, 0xFF, 0xFF, 0x07]), Ok(0x7FFF_FFFF));
    assert_eq!(sleb(&[0x80, 0x80, 0x80, 0x80, 0x78]), Ok(-0x8000_0000));
}

#[test]
fn signed_varint_overflow() {
    assert_eq!(sleb(&[0xFF, 0xFF, 0xFF, 0xFF, 0x0F]), Err(IdlError::VarintOverflow));
    assert_eq!(sleb(&[0x80, 0x80]), Err(IdlError::BufferExhausted));
}

#[test]
fn varint_cursor_advance() {
    let data = vec![0xE5, 0x8E, 0x26, 0x07];
    let mut c = Cursor::new(&data);
    assert_eq!(leb128_decode(&data, &mut c), Ok(624485));
    assert_eq!(c.pos, 3);
    assert_eq!(sleb128_decode(&data, &mut c), Ok(7));
    assert_eq!(c.pos, 4);
}

#[test]
fn skipping_varints_ignores_width() {
    let data = vec![0x80, 0x80, 0x80, 0x80, 0x80, 0x80, 0x80, 0x00, 0x05];
    let mut c = Cursor::new(&data);
    assert_eq!(skip_leb128(&data, &mut c), Ok(()));
    assert_eq!(c.pos, 8);
    let data2 = vec![0x80, 0x80];
    let mut c2 = Cursor::new(&data2);
    assert_eq!(skip_leb128(&data2, &mut c2), Err(IdlError::BufferExhausted));
}

#[test]
fn cursor_bounds() {
    let data = vec![1, 2, 3, 4, 5];
    let mut c = Cursor::new(&data);
    assert_eq!(c.read_byte(&data), Ok(1));
    assert_eq!(c.advance(&data, 3), Ok(()));
    assert_eq!(c.advance(&data, 2), Err(IdlError::BufferExhausted));
    assert_eq!(c.advance(&data, 1), Ok(()));
    assert_eq!(c.read_byte(&data), Err(IdlError::BufferExhausted));
    assert!(Cursor::at(&data, 2, 4).is_ok());
    assert!(Cursor::at(&data, 2, 6).is_err());
    assert!(Cursor::at(&data, 4, 2).is_err());
}

#[test]
fn word_reads_little_endian() {
    let data = vec![0x44, 0x49, 0x44, 0x4C, 0x00];
    let mut c = Cursor::new(&data);
    assert_eq!(c.read_word_le(&data), Ok(0x4C44_4944));
    assert_eq!(c.pos, 4);
}

#[test]
fn utf8_accepts_well_formed() {
    let cases: [&[u8]; 5] = [
        b"",
        b"hello",
        &[0xC3, 0xA9],
        &[0xE2, 0x82, 0xAC],
        &[0xF0, 0x9F, 0x98, 0x80],
    ];
    for bytes in cases {
        let data = bytes.to_vec();
        let n = data.len();
        assert!(utf8_validate_range(&data, 0, n), "{:?}", bytes);
        assert!(std::str::from_utf8(bytes).is_ok());
    }
}

#[test]
fn utf8_rejects_malformed() {
    let cases: [&[u8]; 7] = [
        &[0x80],
        &[0xC0, 0xAF],
        &[0xC3],
        &[0xE0, 0x80, 0x80],
        &[0xED, 0xA0, 0x80],
        &[0xF4, 0x90, 0x80, 0x80],
        &[0xF5, 0x80, 0x80, 0x80],
    ];
    for bytes in cases {
        let data = bytes.to_vec();
        let n = data.len();
        assert!(!utf8_validate_range(&data, 0, n), "{:?}", bytes);
        assert!(std::str::from_utf8(bytes).is_err());
    }
}

#[test]
fn utf8_agrees_with_std_on_all_two_byte_inputs() {
    for a in 0..=255u8 {
        for b in 0..=255u8 {
            let data = vec![a, b];
            assert_eq!(
                utf8_validate_range(&data, 0, 2),
                std::str::from_utf8(&data).is_ok(),
                "{:02X} {:02X}",
                a,
                b
            );
        }
    }
}
