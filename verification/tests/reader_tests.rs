use oled_mirror::hexdata::{decode_hex, parse_hex_u32};
use oled_mirror::reader::{
    parse_block_response, parse_u32_response, response_bytes, MemoryReadRequest, ReadError,
};

#[test]
fn read_command_wire_form() {
    let req = MemoryReadRequest { address: 0x20004afc, length: 0x300 };
    assert_eq!(req.command(), b"m20004afc,300".to_vec());
    let req = MemoryReadRequest { address: 0, length: 4 };
    assert_eq!(req.command(), b"m0,4".to_vec());
    let req = MemoryReadRequest { address: 0xffff_ffff, length: 0 };
    assert_eq!(req.command(), b"mffffffff,0".to_vec());
}

#[test]
fn decode_hex_both_cases() {
    assert_eq!(decode_hex(&b"48656c6c6f".to_vec()), Some(b"Hello".to_vec()));
    assert_eq!(decode_hex(&b"DEADbeef".to_vec()), Some(vec![0xDE, 0xAD, 0xBE, 0xEF]));
    assert_eq!(decode_hex(&Vec::new()), Some(Vec::new()));
}

#[test]
fn decode_hex_matches_hex_crate() {
    for input in ["48656c6c6f", "DEADbeef", "00ff10", ""] {
        assert_eq!(
            decode_hex(&input.as_bytes().to_vec()),
            hex::decode(input).ok(),
            "input {:?}",
            input
        );
    }
    for input in ["4g", "abc", "0x10"] {
        assert_eq!(decode_hex(&input.as_bytes().to_vec()), None, "input {:?}", input);
        assert!(hex::decode(input).is_err());
    }
}

#[test]
fn block_response_closed_stream_is_empty() {
    // A closed stream yields the empty block, not an error: one
    // dropped reply shows a stale frame instead of ending the mirror.
    assert_eq!(parse_block_response(None), Ok(Vec::new()));
}

#[test]
fn block_response_decodes_hex_payload() {
    assert_eq!(parse_block_response(Some(b"00ff10".to_vec())), Ok(vec![0x00, 0xFF, 0x10]));
}

#[test]
fn block_response_malformed_hex_is_fatal() {
    assert_eq!(parse_block_response(Some(b"4g".to_vec())), Err(ReadError::MalformedHex));
    assert_eq!(parse_block_response(Some(b"abc".to_vec())), Err(ReadError::MalformedHex));
}

#[test]
fn u32_response_little_endian() {
    assert_eq!(parse_u32_response(Some(b"fc4a0020".to_vec())), Ok(0x20004afc));
    assert_eq!(parse_u32_response(Some(b"01000000".to_vec())), Ok(1));
    assert_eq!(parse_u32_response(Some(b"0100000055".to_vec())), Ok(1));
}

#[test]
fn u32_response_closed_stream_is_zero() {
    assert_eq!(parse_u32_response(None), Ok(0));
}

#[test]
fn u32_response_errors() {
    assert_eq!(parse_u32_response(Some(b"zz".to_vec())), Err(ReadError::MalformedHex));
    assert_eq!(parse_u32_response(Some(b"ffff".to_vec())), Err(ReadError::Truncated));
    assert_eq!(parse_u32_response(Some(Vec::new())), Err(ReadError::Truncated));
}

#[test]
fn response_bytes_passthrough() {
    assert_eq!(response_bytes(None), Vec::new());
    assert_eq!(response_bytes(Some(b"S05".to_vec())), b"S05".to_vec());
}

#[test]
fn parse_hex_u32_values() {
    assert_eq!(parse_hex_u32(&b"20004afc".to_vec()), Some(0x20004afc));
    assert_eq!(parse_hex_u32(&b"0".to_vec()), Some(0));
    assert_eq!(parse_hex_u32(&b"ffffffff".to_vec()), Some(u32::MAX));
    assert_eq!(parse_hex_u32(&b"FFFFFFFF".to_vec()), Some(u32::MAX));
    assert_eq!(parse_hex_u32(&b"00000001".to_vec()), Some(1));
}

#[test]
fn parse_hex_u32_rejections() {
    assert_eq!(parse_hex_u32(&Vec::new()), None);
    assert_eq!(parse_hex_u32(&b"1g".to_vec()), None);
    assert_eq!(parse_hex_u32(&b"100000000".to_vec()), None);
}
