use oled_mirror::symbols::find_symbol_address;

fn listing() -> Vec<u8> {
    let text = "\
20001000 T main\n\
20004afc D OLED::oledCurrentImage\n\
20005000 B OLED::oledCurrentImage_shadow\n";
    text.as_bytes().to_vec()
}

#[test]
fn finds_the_first_matching_line() {
    let addr = find_symbol_address(&listing(), &b"OLED::oledCurrentImage".to_vec());
    assert_eq!(addr, Some(0x20004afc));
}

#[test]
fn fragment_matches_within_a_name() {
    let addr = find_symbol_address(&listing(), &b"oledCurrentImage".to_vec());
    assert_eq!(addr, Some(0x20004afc));
}

#[test]
fn missing_symbol_is_not_found() {
    assert_eq!(find_symbol_address(&listing(), &b"no_such_symbol".to_vec()), None);
    assert_eq!(find_symbol_address(&Vec::new(), &b"anything".to_vec()), None);
}

#[test]
fn leading_hex_prefix_is_stripped() {
    let text = b"0x20004afc D OLED::oledCurrentImage\n".to_vec();
    let addr = find_symbol_address(&text, &b"oledCurrentImage".to_vec());
    assert_eq!(addr, Some(0x20004afc));
}

#[test]
fn non_hex_address_field_is_not_found() {
    let text = b"???????? U OLED::oledCurrentImage\n".to_vec();
    assert_eq!(find_symbol_address(&text, &b"oledCurrentImage".to_vec()), None);
}

#[test]
fn address_wider_than_32_bits_is_not_found() {
    let text = b"ffffffff20004afc D OLED::oledCurrentImage\n".to_vec();
    assert_eq!(find_symbol_address(&text, &b"oledCurrentImage".to_vec()), None);
}

#[test]
fn indented_address_field_is_read() {
    let text = b"   20004afc D OLED::oledCurrentImage\n".to_vec();
    let addr = find_symbol_address(&text, &b"oledCurrentImage".to_vec());
    assert_eq!(addr, Some(0x20004afc));
}
