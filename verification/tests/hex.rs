use dumpscan::error::{ConfigFault, ScanError};
use dumpscan::hex::{hex_dump, is_graphic_byte};

#[test]
fn full_row() {
    let lines = hex_dump(b"Hello, World!\x00\x01\xff", 0, 16).unwrap();
    assert_eq!(
        lines,
        vec!["00000000  48 65 6C 6C 6F 2C 20 57 6F 72 6C 64 21 00 01 FF  |Hello,.World!...|"
            .to_string()]
    );
}

#[test]
fn short_row_is_padded() {
    let lines = hex_dump(b"AB", 0x10, 4).unwrap();
    assert_eq!(lines, vec!["00000010  41 42        |AB|".to_string()]);
}

#[test]
fn rows_carry_absolute_offsets() {
    let lines = hex_dump(b"abcdefgh~", 0x3FE, 4).unwrap();
    assert_eq!(
        lines,
        vec![
            "000003FE  61 62 63 64  |abcd|".to_string(),
            "00000402  65 66 67 68  |efgh|".to_string(),
            "00000406  7E           |~|".to_string(),
        ]
    );
}

#[test]
fn offset_beyond_eight_digits_is_printed_in_full() {
    let lines = hex_dump(&[0x0A], 0x1_2345_6789, 1).unwrap();
    assert_eq!(lines, vec!["123456789  0A  |.|".to_string()]);
}

#[test]
fn empty_chunk_has_no_rows() {
    assert_eq!(hex_dump(&[], 64, 16).unwrap(), Vec::<String>::new());
}

#[test]
fn zero_bytes_per_row_is_refused() {
    assert_eq!(
        hex_dump(b"abc", 0, 0),
        Err(ScanError::InvalidConfiguration(ConfigFault::ZeroBytesPerRow))
    );
}

#[test]
fn space_is_not_graphic() {
    assert!(!is_graphic_byte(b' '));
    assert!(is_graphic_byte(b'!'));
    assert!(is_graphic_byte(b'~'));
    assert!(!is_graphic_byte(0x7f));
    assert!(!is_graphic_byte(0x80));
    assert!(!is_graphic_byte(0));
}
