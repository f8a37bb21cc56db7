use tansu_nvme::frame::{decode, encode, Decoded, FrameType};

#[test]
fn round_trip() {
    let framed = encode(FrameType::Batch, b"hello");

    match decode(&framed) {
        Decoded::Frame(frame) => {
            assert_eq!(FrameType::Batch, frame.frame_type);
            assert_eq!(&b"hello"[..], &frame.payload[..]);
            assert_eq!(framed.len(), frame.size_on_disk());
        }
        Decoded::Torn => panic!("expected frame"),
    }
}

#[test]
fn truncation_at_every_byte_is_torn() {
    let framed = encode(FrameType::Wal, b"payload bytes here");

    for cut in 0..framed.len() {
        assert!(
            matches!(decode(&framed[..cut]), Decoded::Torn),
            "cut at {cut} must be torn"
        );
    }
}

#[test]
fn corruption_of_any_byte_is_torn_or_shorter_frame() {
    let framed = encode(FrameType::Batch, b"sensitive");

    for i in 0..framed.len() {
        let mut corrupted = framed.to_vec();
        corrupted[i] ^= 0x01;

        match decode(&corrupted) {
            Decoded::Torn => {}
            Decoded::Frame(frame) => {
                // A flipped bit inside payload_len could only produce a
                // *valid* shorter/longer frame if the CRC also matched,
                // which the CRC makes computationally negligible.
                panic!("corruption at {i} decoded as {frame:?}");
            }
        }
    }
}

#[test]
fn trailing_bytes_ignored() {
    let mut bytes = encode(FrameType::Batch, b"first").to_vec();
    bytes.extend_from_slice(&encode(FrameType::Batch, b"second"));

    match decode(&bytes) {
        Decoded::Frame(frame) => assert_eq!(&b"first"[..], &frame.payload[..]),
        Decoded::Torn => panic!("expected frame"),
    }
}

#[test]
fn header_layout() {
    let framed = encode(FrameType::Snapshot, b"xy");
    assert_eq!(14, framed.len());
    assert_eq!(&[0x54, 0x01, 0x03, 0x00], &framed[..4]);
    assert_eq!(&[2, 0, 0, 0], &framed[4..8]);
    assert_eq!(b"xy", &framed[12..]);
}

#[test]
fn checksum_is_crc32c_of_header_and_payload() {
    // The CRC-32C of 0x54 0x01 0x01 0x00 "123456789", computed bit by bit.
    let mut crc: u32 = !0;
    for byte in [0x54u8, 0x01, 0x01, 0x00].iter().chain(b"123456789") {
        crc ^= *byte as u32;
        for _ in 0..8 {
            crc = if crc & 1 == 1 {
                (crc >> 1) ^ 0x82f6_3b78
            } else {
                crc >> 1
            };
        }
    }
    let framed = encode(FrameType::Batch, b"123456789");
    assert_eq!(&(!crc).to_le_bytes(), &framed[8..12]);
}

#[test]
fn unknown_type_is_torn() {
    let mut framed = encode(FrameType::Batch, b"x").to_vec();
    framed[2] = 9;
    assert!(matches!(decode(&framed), Decoded::Torn));
}
