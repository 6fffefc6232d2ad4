use pixel_colour::hex::{parse_hex, HexError};

#[test]
fn parse_hex_reads_three_channels() {
    assert_eq!(parse_hex("ff8000"), Ok((255, 128, 0)));
    assert_eq!(parse_hex("000000"), Ok((0, 0, 0)));
    assert_eq!(parse_hex("1a2B3c"), Ok((0x1a, 0x2b, 0x3c)));
    assert_eq!(parse_hex("FFFFFF"), Ok((255, 255, 255)));
}

#[test]
fn parse_hex_rejects_wrong_length() {
    assert_eq!(parse_hex(""), Err(HexError::WrongLength { found: 0 }));
    assert_eq!(parse_hex("fff"), Err(HexError::WrongLength { found: 3 }));
    assert_eq!(parse_hex("#ff8000"), Err(HexError::WrongLength { found: 7 }));
}

#[test]
fn parse_hex_rejects_non_digits() {
    assert_eq!(parse_hex("12x456"), Err(HexError::InvalidDigit { position: 2 }));
    assert_eq!(parse_hex("gg0000"), Err(HexError::InvalidDigit { position: 0 }));
    assert_eq!(parse_hex("+f0000"), Err(HexError::InvalidDigit { position: 0 }));
    assert_eq!(parse_hex("00000é"), Err(HexError::InvalidDigit { position: 5 }));
}
