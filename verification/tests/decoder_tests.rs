use oled_mirror::decoder::DisplayBuffer;

#[test]
fn bit_order_mapping() {
    // One page, one column byte: source bit 0 is the topmost pixel,
    // and the destination is MSB-first, so pixel (0, 0) lands in the
    // high bit of the first byte.
    let mut buf = DisplayBuffer::new(8, 8);
    buf.decode_into(&vec![0b0000_0001]);
    assert_eq!(buf.data[0], 0b1000_0000);
    for y in 1..8 {
        assert_eq!(buf.data[y], 0b0000_0000);
    }
}

#[test]
fn column_byte_spans_eight_rows() {
    // 0xFF in one column byte turns on that column's eight pixels.
    let mut buf = DisplayBuffer::new(8, 8);
    buf.decode_into(&vec![0xFF]);
    for y in 0..8 {
        assert_eq!(buf.data[y], 0b1000_0000, "row {}", y);
    }
}

#[test]
fn row_zero_from_bit_zero_of_every_column() {
    // Bit 0 of every column byte forms pixel row 0.
    let mut buf = DisplayBuffer::new(16, 8);
    buf.decode_into(&vec![0x01; 16]);
    assert_eq!(buf.data[0], 0xFF);
    assert_eq!(buf.data[1], 0xFF);
    for i in 2..16 {
        assert_eq!(buf.data[i], 0x00, "byte {}", i);
    }
}

#[test]
fn full_input_decode_is_deterministic() {
    // The same full-length block leaves identical contents whatever
    // the bitmap held before, and decoding it twice changes nothing.
    let raw: Vec<u8> = (0u8..=255).take(16).map(|b| b.wrapping_mul(37)).collect();
    let mut fresh = DisplayBuffer::new(16, 8);
    let mut primed = DisplayBuffer::new(16, 8);
    primed.decode_into(&vec![0xFF; 16]);
    fresh.decode_into(&raw);
    primed.decode_into(&raw);
    assert_eq!(fresh.data, primed.data);
    let once = fresh.data.clone();
    fresh.decode_into(&raw);
    assert_eq!(fresh.data, once);
}

#[test]
fn partial_input_keeps_uncovered_bytes() {
    let mut buf = DisplayBuffer::new(8, 16);
    buf.decode_into(&vec![0xFF; 16]);
    assert_eq!(buf.data, vec![0xFF; 16]);
    // One byte of input covers only column 0 of page 0: its eight
    // pixels clear, every other pixel keeps its prior value.
    buf.decode_into(&vec![0x00]);
    for y in 0..8 {
        assert_eq!(buf.data[y], 0b0111_1111, "row {}", y);
    }
    for y in 8..16 {
        assert_eq!(buf.data[y], 0xFF, "row {}", y);
    }
}

#[test]
fn empty_input_changes_nothing() {
    let mut buf = DisplayBuffer::new(8, 8);
    buf.decode_into(&vec![0xFF]);
    let before = buf.data.clone();
    buf.decode_into(&Vec::new());
    assert_eq!(buf.data, before);
}

#[test]
fn oversized_input_excess_ignored() {
    let mut full = DisplayBuffer::new(8, 8);
    let mut oversized = DisplayBuffer::new(8, 8);
    let raw: Vec<u8> = (1u8..=8).collect();
    full.decode_into(&raw);
    let mut longer = raw.clone();
    longer.extend_from_slice(&[0xAA; 10]);
    oversized.decode_into(&longer);
    assert_eq!(full.data, oversized.data);
}

#[test]
fn mirror_dimensions_buffer() {
    // The mirrored display's own dimensions.
    let buf = DisplayBuffer::new(128, 48);
    assert_eq!(buf.data.len(), 128 * 48 / 8);
    assert!(buf.data.iter().all(|&b| b == 0));
}
