use patcherd::hexcode::{clean_hex, decode_hex, decode_hex_pattern, HexDecodeError, PatternError};
use patcherd::search::Pattern;

#[test]
fn clean_hex_strips_decorations() {
    assert_eq!(clean_hex("0xDE, 0xAD 0xBE,0xEF"), "DEADBEEF");
    assert_eq!(clean_hex("0Xde ad"), "dead");
    assert_eq!(clean_hex(""), "");
}

#[test]
fn clean_hex_does_not_rescan() {
    // "00xx": removing the "0x" at offset 1 leaves a new "0x" that stays.
    assert_eq!(clean_hex("00xx"), "0x");
    // spaces go first, so "0 x" becomes "0x" and is removed.
    assert_eq!(clean_hex("0 x12"), "12");
}

#[test]
fn pattern_with_wildcards() {
    let p = decode_hex_pattern("DE ?? be").unwrap();
    assert_eq!(p, vec![Pattern::Byte(0xDE), Pattern::Wildcard, Pattern::Byte(0xBE)]);
}

#[test]
fn pattern_with_prefixes() {
    let p = decode_hex_pattern("0x01,0x02").unwrap();
    assert_eq!(p, vec![Pattern::Byte(1), Pattern::Byte(2)]);
}

#[test]
fn pattern_odd_length() {
    assert_eq!(decode_hex_pattern("ABC"), Err(PatternError::OddLength));
}

#[test]
fn pattern_invalid_pair() {
    assert_eq!(
        decode_hex_pattern("00ZZ"),
        Err(PatternError::InvalidHex { offset: 2, first: b'Z', second: b'Z' })
    );
    assert_eq!(
        decode_hex_pattern("?A"),
        Err(PatternError::InvalidHex { offset: 0, first: b'?', second: b'A' })
    );
}

#[test]
fn pattern_plus_sign_is_radix_prefix() {
    // u8::from_str_radix accepts a leading '+'
    assert_eq!(decode_hex_pattern("+F").unwrap(), vec![Pattern::Byte(0x0F)]);
    assert!(decode_hex_pattern("-F").is_err());
}

#[test]
fn pattern_empty() {
    assert_eq!(decode_hex_pattern("").unwrap(), Vec::<Pattern>::new());
}

#[test]
fn decode_hex_bytes() {
    assert_eq!(decode_hex("0x0102 ff").unwrap(), vec![1, 2, 0xFF]);
    assert_eq!(decode_hex("DeAd").unwrap(), vec![0xDE, 0xAD]);
}

#[test]
fn decode_hex_errors() {
    assert_eq!(decode_hex("abc"), Err(HexDecodeError::OddLength));
    assert_eq!(
        decode_hex("0g"),
        Err(HexDecodeError::InvalidHexCharacter { c: 'g', index: 1 })
    );
    assert_eq!(
        decode_hex("00xx"),
        Err(HexDecodeError::InvalidHexCharacter { c: 'x', index: 1 })
    );
    // wildcards are no hex
    assert_eq!(
        decode_hex("??"),
        Err(HexDecodeError::InvalidHexCharacter { c: '?', index: 0 })
    );
}
