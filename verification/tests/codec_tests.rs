use oled_mirror::codec::{decode, encode, frame_len, DecodeError, PacketKind};

#[test]
fn encode_command_exact() {
    assert_eq!(encode(PacketKind::Command, &b"c".to_vec()), b"$c#63".to_vec());
    assert_eq!(encode(PacketKind::Command, &b"m0,4".to_vec()), b"$m0,4#fd".to_vec());
    assert_eq!(encode(PacketKind::Command, &Vec::new()), b"$#00".to_vec());
}

#[test]
fn encode_notification_and_ack() {
    assert_eq!(encode(PacketKind::Notification, &b"c".to_vec()), b"%c#63".to_vec());
    assert_eq!(encode(PacketKind::Acknowledgement, &Vec::new()), b"+".to_vec());
    assert_eq!(encode(PacketKind::Acknowledgement, &b"ignored".to_vec()), b"+".to_vec());
}

#[test]
fn round_trip_command() {
    let payloads: Vec<Vec<u8>> = vec![
        b"m20004afc,300".to_vec(),
        b"c".to_vec(),
        Vec::new(),
        vec![0u8, 1, 2, 250, 255, b'$', b'%', b'+'],
    ];
    for payload in payloads {
        let wire = encode(PacketKind::Command, &payload);
        let packet = decode(&wire).expect("an encoded packet must decode");
        assert!(matches!(packet.kind, PacketKind::Command));
        assert_eq!(packet.payload, payload);
    }
}

#[test]
fn round_trip_notification() {
    let wire = encode(PacketKind::Notification, &b"Stop".to_vec());
    let packet = decode(&wire).expect("an encoded packet must decode");
    assert!(matches!(packet.kind, PacketKind::Notification));
    assert_eq!(packet.payload, b"Stop".to_vec());
}

#[test]
fn decode_lone_ack() {
    let packet = decode(&b"+".to_vec()).expect("a lone ack byte decodes");
    assert!(matches!(packet.kind, PacketKind::Acknowledgement));
    assert!(packet.payload.is_empty());
}

#[test]
fn checksum_bit_flip_rejected_everywhere() {
    let wire = encode(PacketKind::Command, &b"m0,4".to_vec());
    let len = wire.len();
    for pos in [len - 2, len - 1] {
        for bit in 0..8 {
            let mut corrupted = wire.clone();
            corrupted[pos] ^= 1u8 << bit;
            assert!(
                matches!(decode(&corrupted), Err(DecodeError::Checksum)),
                "flip of bit {} at {} must be caught",
                bit,
                pos
            );
        }
    }
}

#[test]
fn checksum_mismatch_rejected() {
    assert!(matches!(decode(&b"$c#64".to_vec()), Err(DecodeError::Checksum)));
    assert!(matches!(decode(&b"$c#00".to_vec()), Err(DecodeError::Checksum)));
}

#[test]
fn checksum_digits_are_case_sensitive() {
    assert_eq!(decode(&b"$cc#c6".to_vec()).unwrap().payload, b"cc".to_vec());
    assert!(matches!(decode(&b"$cc#C6".to_vec()), Err(DecodeError::Checksum)));
}

#[test]
fn framing_errors() {
    assert!(matches!(decode(&Vec::new()), Err(DecodeError::Framing)));
    assert!(matches!(decode(&b"x".to_vec()), Err(DecodeError::Framing)));
    assert!(matches!(decode(&b"$abc".to_vec()), Err(DecodeError::Framing)));
    assert!(matches!(decode(&b"$abc#6".to_vec()), Err(DecodeError::Framing)));
    assert!(matches!(decode(&b"+x".to_vec()), Err(DecodeError::Framing)));
    assert!(matches!(decode(&b"$c#63extra".to_vec()), Err(DecodeError::Framing)));
}

#[test]
fn frame_len_reassembly() {
    assert_eq!(frame_len(&Vec::new()), None);
    assert_eq!(frame_len(&b"+".to_vec()), Some(1));
    assert_eq!(frame_len(&b"+$c#63".to_vec()), Some(1));
    assert_eq!(frame_len(&b"$c".to_vec()), None);
    assert_eq!(frame_len(&b"$c#6".to_vec()), None);
    assert_eq!(frame_len(&b"$c#63".to_vec()), Some(5));
    assert_eq!(frame_len(&b"$c#63$d#64".to_vec()), Some(5));
}

#[test]
fn line_noise_before_a_packet_is_skipped() {
    assert_eq!(frame_len(&b"x$c#63".to_vec()), Some(6));
    assert_eq!(frame_len(&b"\n-$c#63".to_vec()), Some(7));
    assert_eq!(frame_len(&b"--".to_vec()), None);
    let packet = decode(&b"x$c#63".to_vec()).expect("noise before the start delimiter is skipped");
    assert!(matches!(packet.kind, PacketKind::Command));
    assert_eq!(packet.payload, b"c".to_vec());
}

#[test]
fn special_bytes_are_escaped_exactly() {
    assert_eq!(encode(PacketKind::Command, &vec![0x23]), b"$}\x03#23".to_vec());
    assert_eq!(
        encode(PacketKind::Command, &vec![0x23, 0x24, 0x7d, 0x2a]),
        b"$}\x03}\x04}]}\x0a#ee".to_vec()
    );
}

#[test]
fn round_trip_with_special_bytes() {
    let payloads: Vec<Vec<u8>> = vec![
        vec![0x23],
        vec![0x24],
        vec![0x7d],
        vec![0x2a],
        b"}{#$* #data*#".to_vec(),
        vec![0x23, 0x03, 0x24, 0x04, 0x7d, 0x5d, 0x2a, 0x0a],
    ];
    for payload in payloads {
        let wire = encode(PacketKind::Command, &payload);
        let packet = decode(&wire).expect("escaping must protect every payload");
        assert!(matches!(packet.kind, PacketKind::Command));
        assert_eq!(packet.payload, payload);
    }
}

#[test]
fn run_length_repeats_expand() {
    // `x` then `*` with count byte 32 repeats the `x` three more times.
    let packet = decode(&b"$x* #e0".to_vec()).expect("run-length input decodes");
    assert_eq!(packet.payload, b"xxxx".to_vec());
    // A count byte below 29 asks for nothing.
    let packet = decode(&b"$a*\x10#61".to_vec()).expect("zero-count repeat decodes");
    assert_eq!(packet.payload, b"a".to_vec());
}

#[test]
fn misplaced_markers_are_framing_errors() {
    // A repeat marker with no byte before it (the count byte would be `a`).
    assert!(matches!(decode(&b"$*a#00".to_vec()), Err(DecodeError::Framing)));
    // A repeat marker with no count byte before the end delimiter.
    assert!(matches!(decode(&b"$a*#00".to_vec()), Err(DecodeError::Framing)));
    // An escape with no byte to un-escape.
    assert!(matches!(decode(&b"$a}#00".to_vec()), Err(DecodeError::Framing)));
}
