use idl_skip::cursor::Cursor;
use idl_skip::errors::IdlError;
use idl_skip::header::check_typearg;
use idl_skip::header::is_primitive_type;
use idl_skip::header::parse_fields;
use idl_skip::header::parse_idl_header;

fn magic() -> Vec<u8> {
    vec![0x44, 0x49, 0x44, 0x4C]
}

#[test]
fn minimal_valid_message() {
    // magic, zero declared types, main-type count 1, main type = text (0x71)
    let data = vec![0x44, 0x49, 0x44, 0x4C, 0x00, 0x01, 0x71];
    let mut c = Cursor::new(&data);
    let (table, main_pos) = parse_idl_header(false, &data, &mut c).unwrap();
    assert_eq!(table.len(), 0);
    assert_eq!(main_pos, 5);
    assert_eq!(c.pos, 7);
}

#[test]
fn wrong_magic_fails() {
    let data = vec![0x45, 0x49, 0x44, 0x4C, 0x00, 0x01, 0x71];
    let mut c = Cursor::new(&data);
    assert_eq!(parse_idl_header(false, &data, &mut c), Err(IdlError::MissingMagic));
}

#[test]
fn empty_input_fails() {
    let data: Vec<u8> = vec![];
    let mut c = Cursor::new(&data);
    assert_eq!(parse_idl_header(false, &data, &mut c), Err(IdlError::EmptyInput));
}

#[test]
fn truncated_magic_fails() {
    let data = vec![0x44, 0x49];
    let mut c = Cursor::new(&data);
    assert_eq!(parse_idl_header(false, &data, &mut c), Err(IdlError::BufferExhausted));
}

#[test]
fn too_many_types_fails() {
    let mut data = magic();
    data.extend_from_slice(&[0x05, 0x00]);
    let mut c = Cursor::new(&data);
    assert_eq!(parse_idl_header(false, &data, &mut c), Err(IdlError::TooManyTypes));
}

#[test]
fn out_of_order_field_tags_fail() {
    // one record type whose two field descriptors carry tags [5, 3]
    let mut data = magic();
    data.extend_from_slice(&[0x01, 0x6C, 0x02, 0x05, 0x7F, 0x03, 0x7F, 0x00]);
    let mut c = Cursor::new(&data);
    assert_eq!(parse_idl_header(false, &data, &mut c), Err(IdlError::TagOutOfOrder));
}

#[test]
fn duplicate_field_tags_fail() {
    let mut data = magic();
    data.extend_from_slice(&[0x01, 0x6C, 0x02, 0x05, 0x7F, 0x05, 0x7F, 0x00]);
    let mut c = Cursor::new(&data);
    assert_eq!(parse_idl_header(false, &data, &mut c), Err(IdlError::TagOutOfOrder));
}

#[test]
fn ascending_field_tags_pass() {
    let mut data = magic();
    data.extend_from_slice(&[0x01, 0x6C, 0x02, 0x03, 0x7F, 0x05, 0x7F, 0x00]);
    let mut c = Cursor::new(&data);
    let (table, _) = parse_idl_header(false, &data, &mut c).unwrap();
    assert_eq!(table, vec![5]);
}

#[test]
fn max_tag_only_last() {
    // maximal tag first of two is refused
    let mut data = magic();
    data.extend_from_slice(&[
        0x01, 0x6C, 0x02, 0xFF, 0xFF, 0xFF, 0xFF, 0x0F, 0x7F, 0x05, 0x7F, 0x00,
    ]);
    let mut c = Cursor::new(&data);
    assert_eq!(parse_idl_header(false, &data, &mut c), Err(IdlError::TagOutOfOrder));
    // maximal tag as the single (last) field is accepted
    let mut data2 = magic();
    data2.extend_from_slice(&[0x01, 0x6C, 0x01, 0xFF, 0xFF, 0xFF, 0xFF, 0x0F, 0x7F, 0x00]);
    let mut c2 = Cursor::new(&data2);
    assert!(parse_idl_header(false, &data2, &mut c2).is_ok());
}

#[test]
fn table_index_out_of_bounds_fails() {
    // a vector whose element type is index 1 while only one type is declared
    let mut data = magic();
    data.extend_from_slice(&[0x01, 0x6D, 0x01, 0x00]);
    let mut c = Cursor::new(&data);
    assert_eq!(parse_idl_header(false, &data, &mut c), Err(IdlError::InvalidTypeArg));
}

#[test]
fn main_type_out_of_bounds_fails() {
    // zero declared types but the main list names index 1
    let data = vec![0x44, 0x49, 0x44, 0x4C, 0x00, 0x01, 0x01, 0x00];
    let mut c = Cursor::new(&data);
    assert_eq!(parse_idl_header(false, &data, &mut c), Err(IdlError::InvalidTypeArg));
}

#[test]
fn primitive_in_table_fails() {
    let mut data = magic();
    data.extend_from_slice(&[0x01, 0x71, 0x00]);
    let mut c = Cursor::new(&data);
    assert_eq!(parse_idl_header(false, &data, &mut c), Err(IdlError::PrimitiveInTable));
}

#[test]
fn nonnegative_constructor_fails() {
    let mut data = magic();
    data.extend_from_slice(&[0x01, 0x02, 0x00]);
    let mut c = Cursor::new(&data);
    assert_eq!(parse_idl_header(false, &data, &mut c), Err(IdlError::IllegalTypeTable));
}

#[test]
fn alias_needs_extended_mode() {
    let mut data = magic();
    data.extend_from_slice(&[0x01, 0x01, 0x7B, 0x00]);
    let mut c = Cursor::new(&data);
    assert_eq!(parse_idl_header(false, &data, &mut c), Err(IdlError::IllegalTypeTable));
    let mut c2 = Cursor::new(&data);
    let (table, _) = parse_idl_header(true, &data, &mut c2).unwrap();
    assert_eq!(table, vec![5]);
}

#[test]
fn func_and_service_entries_parse() {
    // func: one arg (nat8), one ret (text), two annotation bytes
    let mut data = magic();
    data.extend_from_slice(&[0x02, 0x6A, 0x01, 0x7B, 0x01, 0x71, 0x02, 0x01, 0x02]);
    // service: one method, name "a", type index 0
    data.extend_from_slice(&[0x69, 0x01, 0x01, 0x61, 0x00]);
    data.extend_from_slice(&[0x00]);
    let mut c = Cursor::new(&data);
    let (table, main_pos) = parse_idl_header(false, &data, &mut c).unwrap();
    assert_eq!(table, vec![5, 13]);
    assert_eq!(main_pos, data.len() - 1);
}

#[test]
fn future_constructor_entry_is_opaque() {
    // constructor -26 with a 3-byte opaque body
    let mut data = magic();
    data.extend_from_slice(&[0x01, 0x66, 0x03, 0xAA, 0xBB, 0xCC, 0x00]);
    let mut c = Cursor::new(&data);
    let (table, _) = parse_idl_header(false, &data, &mut c).unwrap();
    assert_eq!(table, vec![5]);
    assert_eq!(c.pos, data.len());
}

#[test]
fn truncated_table_fails() {
    let mut data = magic();
    data.extend_from_slice(&[0x01, 0x6C, 0x02, 0x03]);
    let mut c = Cursor::new(&data);
    assert!(parse_idl_header(false, &data, &mut c).is_err());
}

#[test]
fn parse_fields_standalone() {
    let data = vec![0x02, 0x03, 0x7F, 0x05, 0x7F];
    let mut c = Cursor::new(&data);
    assert!(parse_fields(&data, &mut c, 0).is_ok());
    assert_eq!(c.pos, 5);

    let bad = vec![0x02, 0x05, 0x7F, 0x03, 0x7F];
    let mut c2 = Cursor::new(&bad);
    assert_eq!(parse_fields(&bad, &mut c2, 0), Err(IdlError::TagOutOfOrder));
}

#[test]
fn primitive_classification() {
    assert!(is_primitive_type(-1));
    assert!(is_primitive_type(-17));
    assert!(is_primitive_type(-24));
    assert!(!is_primitive_type(-18));
    assert!(!is_primitive_type(-23));
    assert!(!is_primitive_type(-25));
    assert!(!is_primitive_type(0));
    assert!(!is_primitive_type(1));
}

#[test]
fn typearg_bounds() {
    assert!(check_typearg(-15, 0).is_ok());
    assert!(check_typearg(0, 1).is_ok());
    assert_eq!(check_typearg(1, 1), Err(IdlError::InvalidTypeArg));
    assert_eq!(check_typearg(-18, 5), Err(IdlError::InvalidTypeArg));
}
