use idl_skip::cursor::Cursor;
use idl_skip::errors::IdlError;
use idl_skip::header::parse_idl_header;
use idl_skip::skip::find_field;
use idl_skip::skip::read_byte_tag;
use idl_skip::skip::skip_any;
use idl_skip::skip::skip_fields;

/// Builds a message from a type-table body and value bytes, parses the
/// header, and returns the data, the table, and a cursor at the value part.
fn parsed(
    extended: bool,
    n_types: u8,
    table_body: &[u8],
    values: &[u8],
) -> (Vec<u8>, Vec<usize>, Cursor) {
    let mut data = vec![0x44, 0x49, 0x44, 0x4C, n_types];
    data.extend_from_slice(table_body);
    data.push(0x00); // empty main type list
    data.extend_from_slice(values);
    let mut c = Cursor::new(&data);
    let (table, _main) = parse_idl_header(extended, &data, &mut c).unwrap();
    (data, table, c)
}

fn skip_one(extended: bool, n_types: u8, table_body: &[u8], values: &[u8], t: i32) -> Result<
    usize,
    IdlError,
> {
    let (data, table, mut c) = parsed(extended, n_types, table_body, values);
    let start = c.pos;
    skip_any(&data, &mut c, &table, t, 0)?;
    Ok(c.pos - start)
}

#[test]
fn skip_fixed_width_primitives() {
    assert_eq!(skip_one(false, 0, &[], &[], -1), Ok(0)); // null
    assert_eq!(skip_one(false, 0, &[], &[], -16), Ok(0)); // reserved
    assert_eq!(skip_one(false, 0, &[], &[0xAB; 1], -5), Ok(1)); // nat8
    assert_eq!(skip_one(false, 0, &[], &[0xAB; 2], -10), Ok(2)); // int16
    assert_eq!(skip_one(false, 0, &[], &[0xAB; 4], -7), Ok(4)); // nat32
    assert_eq!(skip_one(false, 0, &[], &[0xAB; 4], -13), Ok(4)); // float32
    assert_eq!(skip_one(false, 0, &[], &[0xAB; 8], -12), Ok(8)); // int64
    assert_eq!(skip_one(false, 0, &[], &[0xAB; 8], -14), Ok(8)); // float64
    assert_eq!(skip_one(false, 0, &[], &[0xAB], -8), Err(IdlError::BufferExhausted));
}

#[test]
fn skip_bool_checks_byte() {
    assert_eq!(skip_one(false, 0, &[], &[0x00], -2), Ok(1));
    assert_eq!(skip_one(false, 0, &[], &[0x01], -2), Ok(1));
    assert_eq!(skip_one(false, 0, &[], &[0x02], -2), Err(IdlError::InvalidByteTag));
}

#[test]
fn skip_unbounded_integers() {
    // nat and int are single varints of any length
    assert_eq!(skip_one(false, 0, &[], &[0x7F], -3), Ok(1));
    assert_eq!(
        skip_one(false, 0, &[], &[0xFF, 0xFF, 0xFF, 0xFF, 0xFF, 0xFF, 0x01], -4),
        Ok(7)
    );
    assert_eq!(skip_one(false, 0, &[], &[0x80, 0x80], -3), Err(IdlError::BufferExhausted));
}

#[test]
fn skip_text_validates_utf8() {
    assert_eq!(skip_one(false, 0, &[], &[0x02, 0xC3, 0xA9], -15), Ok(3));
    assert_eq!(skip_one(false, 0, &[], &[0x00], -15), Ok(1));
    assert_eq!(
        skip_one(false, 0, &[], &[0x02, 0xFF, 0xFF], -15),
        Err(IdlError::InvalidUtf8)
    );
    assert_eq!(skip_one(false, 0, &[], &[0x05, 0x61], -15), Err(IdlError::BufferExhausted));
}

#[test]
fn skip_empty_is_refused() {
    assert_eq!(skip_one(false, 0, &[], &[], -17), Err(IdlError::SkipEmpty));
}

#[test]
fn skip_unknown_primitive_is_refused() {
    assert_eq!(skip_one(false, 0, &[], &[0x00], -25), Err(IdlError::UnknownPrimitive));
}

#[test]
fn skip_principal_reference() {
    assert_eq!(skip_one(false, 0, &[], &[0x00], -24), Ok(1));
    assert_eq!(skip_one(false, 0, &[], &[0x01, 0x02, 0xAA, 0xBB], -24), Ok(4));
    assert_eq!(skip_one(false, 0, &[], &[0x03], -24), Err(IdlError::InvalidByteTag));
}

#[test]
fn vector_of_nat8_advances_exactly() {
    // declared element count 3 with 3 content bytes: the cursor moves
    // exactly 3 bytes past the count field
    let (data, table, mut c) = parsed(false, 1, &[0x6D, 0x7B], &[0x03, 0x10, 0x20, 0x30]);
    let count_field = c.pos;
    skip_any(&data, &mut c, &table, 0, 0).unwrap();
    assert_eq!(c.pos, count_field + 1 + 3);
    assert_eq!(c.pos, data.len());
}

#[test]
fn vector_truncated_fails() {
    let (data, table, mut c) = parsed(false, 1, &[0x6D, 0x7B], &[0x03, 0x10, 0x20]);
    assert_eq!(skip_any(&data, &mut c, &table, 0, 0), Err(IdlError::BufferExhausted));
}

#[test]
fn option_values() {
    // opt nat16
    let (data, table, mut c) = parsed(false, 1, &[0x6E, 0x7A], &[0x00]);
    skip_any(&data, &mut c, &table, 0, 0).unwrap();
    assert_eq!(c.pos, data.len());
    let (data2, table2, mut c2) = parsed(false, 1, &[0x6E, 0x7A], &[0x01, 0xAA, 0xBB]);
    skip_any(&data2, &mut c2, &table2, 0, 0).unwrap();
    assert_eq!(c2.pos, data2.len());
    let (data3, table3, mut c3) = parsed(false, 1, &[0x6E, 0x7A], &[0x07]);
    assert_eq!(skip_any(&data3, &mut c3, &table3, 0, 0), Err(IdlError::InvalidByteTag));
}

#[test]
fn record_concatenates_fields() {
    // record { 1: bool; 2: text }
    let body = [0x6C, 0x02, 0x01, 0x7E, 0x02, 0x71];
    let (data, table, mut c) = parsed(false, 1, &body, &[0x01, 0x02, 0x68, 0x69]);
    skip_any(&data, &mut c, &table, 0, 0).unwrap();
    assert_eq!(c.pos, data.len());
}

#[test]
fn immediately_self_referential_record_fails() {
    // record { 0: itself }
    let (data, table, mut c) = parsed(false, 1, &[0x6C, 0x01, 0x00, 0x00], &[0x2A]);
    assert_eq!(skip_any(&data, &mut c, &table, 0, 0), Err(IdlError::RecursiveRecord));
}

#[test]
fn variant_selects_one_field() {
    // variant { 0: nat8; 1: text }
    let body = [0x6B, 0x02, 0x00, 0x7B, 0x01, 0x71];
    let (data, table, mut c) = parsed(false, 1, &body, &[0x00, 0x2A]);
    skip_any(&data, &mut c, &table, 0, 0).unwrap();
    assert_eq!(c.pos, data.len());
    let (data2, table2, mut c2) = parsed(false, 1, &body, &[0x01, 0x01, 0x68]);
    skip_any(&data2, &mut c2, &table2, 0, 0).unwrap();
    assert_eq!(c2.pos, data2.len());
}

#[test]
fn variant_selector_too_large_fails() {
    // a variant declaring 2 fields with selector 5
    let body = [0x6B, 0x02, 0x00, 0x7F, 0x01, 0x7F];
    let (data, table, mut c) = parsed(false, 1, &body, &[0x05]);
    assert_eq!(skip_any(&data, &mut c, &table, 0, 0), Err(IdlError::VariantTagTooLarge));
}

#[test]
fn func_and_service_values_are_refused() {
    let (data, table, mut c) = parsed(false, 1, &[0x6A, 0x00, 0x00, 0x00], &[0x01]);
    assert_eq!(skip_any(&data, &mut c, &table, 0, 0), Err(IdlError::SkipFunc));
    let (data2, table2, mut c2) = parsed(false, 1, &[0x69, 0x00], &[0x01]);
    assert_eq!(skip_any(&data2, &mut c2, &table2, 0, 0), Err(IdlError::SkipService));
}

#[test]
fn alias_values_in_extended_mode() {
    // alias of nat8: tag 0 means 8 placeholder bytes then the value inline
    let body = [0x01, 0x7B];
    let inline = [0x00, 0, 0, 0, 0, 0, 0, 0, 0, 0x2A];
    let (data, table, mut c) = parsed(true, 1, &body, &inline);
    skip_any(&data, &mut c, &table, 0, 0).unwrap();
    assert_eq!(c.pos, data.len());
    // any other tag is a 4-byte back reference
    let backref = [0x01, 0xAA, 0xBB, 0xCC, 0xDD];
    let (data2, table2, mut c2) = parsed(true, 1, &body, &backref);
    skip_any(&data2, &mut c2, &table2, 0, 0).unwrap();
    assert_eq!(c2.pos, data2.len());
}

#[test]
fn future_type_values() {
    // future constructor -26: value carries data length, reference count, raw data
    let (data, table, mut c) = parsed(false, 1, &[0x66, 0x00], &[0x03, 0x00, 0xAA, 0xBB, 0xCC]);
    skip_any(&data, &mut c, &table, 0, 0).unwrap();
    assert_eq!(c.pos, data.len());
    let (data2, table2, mut c2) = parsed(false, 1, &[0x66, 0x00], &[0x01, 0x01, 0xAA]);
    assert_eq!(skip_any(&data2, &mut c2, &table2, 0, 0), Err(IdlError::FutureReferences));
}

/// A chain of `n` records, each holding the next under tag 0, the innermost
/// holding one 8-bit natural.
fn nested_records(n: u32) -> (Vec<u8>, Vec<usize>, Cursor) {
    let mut body: Vec<u8> = Vec::new();
    for k in 1..n {
        body.extend_from_slice(&[0x6C, 0x01, 0x00]);
        if k <= 63 {
            body.push(k as u8);
        } else {
            body.push(0x80 | (k as u8 & 0x7F));
            body.push((k >> 7) as u8);
        }
    }
    body.extend_from_slice(&[0x6C, 0x01, 0x00, 0x7B]);
    let mut data = vec![0x44, 0x49, 0x44, 0x4C];
    data.push(0x80 | (n as u8 & 0x7F));
    data.push((n >> 7) as u8);
    data.extend_from_slice(&body);
    data.push(0x00);
    data.push(0x2A);
    let mut c = Cursor::new(&data);
    let (table, _main) = parse_idl_header(false, &data, &mut c).unwrap();
    (data, table, c)
}

#[test]
fn hundred_record_levels_succeed() {
    let (data, table, mut c) = nested_records(100);
    skip_any(&data, &mut c, &table, 0, 0).unwrap();
    assert_eq!(c.pos, data.len());
}

#[test]
fn hundred_one_record_levels_fail() {
    let (data, table, mut c) = nested_records(101);
    assert_eq!(skip_any(&data, &mut c, &table, 0, 0), Err(IdlError::TooDeeplyNested));
}

#[test]
fn depth_limit_ignores_vectors() {
    // 101 nested single-element vectors are fine: only records count
    let n: u8 = 101;
    let mut body: Vec<u8> = Vec::new();
    for k in 1..n {
        body.extend_from_slice(&[0x6D]);
        if k <= 63 {
            body.push(k);
        } else {
            body.push(0x80 | (k & 0x7F));
            body.push((k >> 7) as u8);
        }
    }
    body.extend_from_slice(&[0x6D, 0x7B]);
    let mut data = vec![0x44, 0x49, 0x44, 0x4C];
    data.push(0x80 | (n & 0x7F));
    data.push((n >> 7) as u8);
    data.extend_from_slice(&body);
    data.push(0x00);
    data.extend_from_slice(&[0x01; 101]);
    data.push(0x2A);
    let mut c = Cursor::new(&data);
    let (table, _main) = parse_idl_header(false, &data, &mut c).unwrap();
    skip_any(&data, &mut c, &table, 0, 0).unwrap();
    assert_eq!(c.pos, data.len());
}

/// A record { 2: nat8; 5: nat8; 9: nat8 } with value bytes [0xA2, 0xA5, 0xA9];
/// returns data, table, a type cursor at the first descriptor and a value
/// cursor at the first value.
fn three_fields() -> (Vec<u8>, Vec<usize>, Cursor, Cursor) {
    let body = [0x6C, 0x03, 0x02, 0x7B, 0x05, 0x7B, 0x09, 0x7B];
    let (data, table, c) = parsed(false, 1, &body, &[0xA2, 0xA5, 0xA9]);
    let tb = Cursor { pos: table[0] + 2, end: c.end };
    (data, table, tb, c)
}

#[test]
fn find_field_present() {
    // searching [2, 5, 9] for tag 5 skips the tag-2 value and reports found
    let (data, table, mut tb, mut buf) = three_fields();
    let value_start = buf.pos;
    let mut n: u8 = 3;
    let found = find_field(&data, &mut tb, &mut buf, &table, 5, &mut n).unwrap();
    assert!(found);
    assert_eq!(n, 1);
    assert_eq!(buf.pos, value_start + 1);
    // the type cursor stands at the found field's type argument ...
    assert_eq!(data[tb.pos], 0x7B);
    // ... and one type argument later at the tag-9 descriptor
    tb.pos += 1;
    assert_eq!(data[tb.pos], 0x09);
}

#[test]
fn find_field_absent_stops_at_greater_tag() {
    // searching for 4 consumes only the tag-2 field and rewinds to tag 5
    let (data, table, mut tb, mut buf) = three_fields();
    let value_start = buf.pos;
    let first_desc = tb.pos;
    let mut n: u8 = 3;
    let found = find_field(&data, &mut tb, &mut buf, &table, 4, &mut n).unwrap();
    assert!(!found);
    assert_eq!(n, 2);
    assert_eq!(buf.pos, value_start + 1);
    assert_eq!(tb.pos, first_desc + 2);
    assert_eq!(data[tb.pos], 0x05);
}

#[test]
fn find_field_absent_past_all() {
    let (data, table, mut tb, mut buf) = three_fields();
    let mut n: u8 = 3;
    let found = find_field(&data, &mut tb, &mut buf, &table, 11, &mut n).unwrap();
    assert!(!found);
    assert_eq!(n, 0);
    assert_eq!(buf.pos, data.len());
}

#[test]
fn skip_fields_drains_all() {
    let (data, table, mut tb, mut buf) = three_fields();
    let first_desc = tb.pos;
    let mut n: u8 = 3;
    skip_fields(&data, &mut tb, &mut buf, &table, &mut n).unwrap();
    assert_eq!(n, 0);
    assert_eq!(buf.pos, data.len());
    assert_eq!(tb.pos, first_desc + 6);
}

#[test]
fn byte_tag_reads() {
    let data = vec![0x00, 0x01, 0x05];
    let mut c = Cursor::new(&data);
    assert_eq!(read_byte_tag(&data, &mut c), Ok(0));
    assert_eq!(read_byte_tag(&data, &mut c), Ok(1));
    assert_eq!(read_byte_tag(&data, &mut c), Err(IdlError::InvalidByteTag));
}
