use packetworks::wire::{Packet, PacketError, PacketHeader, PacketMut};

#[test]
fn parse_rejects_buffer_shorter_than_header() {
    let bytes = [1_u8, 2, 3];
    assert_eq!(
        Packet::parse(&bytes),
        Err(PacketError::PacketTooSmall { actual_size: 3, minimum_size: 8 })
    );
}

#[test]
fn parse_rejects_empty_buffer() {
    let bytes: [u8; 0] = [];
    assert_eq!(
        Packet::parse(&bytes),
        Err(PacketError::PacketTooSmall { actual_size: 0, minimum_size: 8 })
    );
}

#[test]
fn parse_reads_big_endian_sequence_number_and_payload() {
    let bytes = [0_u8, 0, 0, 0, 0, 0, 1, 2, 9, 8, 7];
    let packet = Packet::parse(&bytes).unwrap();
    assert_eq!(packet.sequence_number(), 258);
    assert_eq!(packet.header, PacketHeader { sequence_number: 258 });
    assert_eq!(packet.payload(), &[9_u8, 8, 7][..]);
    assert_eq!(packet.as_bytes(), &bytes[..]);
}

#[test]
fn parse_accepts_header_without_payload() {
    let bytes = [0x01_u8, 0x02, 0x03, 0x04, 0x05, 0x06, 0x07, 0x08];
    let packet = Packet::parse(&bytes).unwrap();
    assert_eq!(packet.sequence_number(), 0x0102_0304_0506_0708);
    assert!(packet.payload().is_empty());
    assert_eq!(Packet::MINIMUM_SIZE, 8);
}

#[test]
fn parse_reads_largest_sequence_number() {
    let bytes = [0xff_u8; 9];
    let packet = Packet::parse(&bytes).unwrap();
    assert_eq!(packet.sequence_number(), u64::MAX);
    assert_eq!(packet.payload(), &[0xff_u8][..]);
}

#[test]
fn packet_mut_rejects_buffer_shorter_than_header() {
    let mut bytes = [0_u8; 7];
    let error = PacketMut::new(&mut bytes).unwrap_err();
    assert_eq!(error, PacketError::PacketTooSmall { actual_size: 7, minimum_size: 8 });
}

#[test]
fn packet_mut_reads_header_already_in_buffer() {
    let mut bytes = [0_u8, 0, 0, 0, 0, 0, 0, 42, 1, 2];
    let packet = PacketMut::new(&mut bytes).unwrap();
    assert_eq!(packet.sequence_number(), 42);
    assert_eq!(packet.payload(), &[1_u8, 2][..]);
}

#[test]
fn packet_mut_writes_header_only_when_framed() {
    let mut bytes = [0_u8; 10];
    let mut packet = PacketMut::new(&mut bytes).unwrap();
    packet.set_sequence_number(0x0102_0304_0506_0708);
    assert_eq!(packet.sequence_number(), 0x0102_0304_0506_0708);
    assert_eq!(packet.payload(), &[0_u8, 0][..]);
    let framed = packet.as_bytes();
    assert_eq!(framed, &[1_u8, 2, 3, 4, 5, 6, 7, 8, 0, 0][..]);
}

#[test]
fn payload_mut_writes_after_header() {
    let mut bytes = [0xaa_u8; 12];
    let mut packet = PacketMut::new(&mut bytes).unwrap();
    {
        let payload = packet.payload_mut();
        assert_eq!(payload.len(), 4);
        payload.copy_from_slice(b"abcd");
    }
    assert_eq!(packet.payload(), b"abcd");
    assert_eq!(packet.sequence_number(), 0xaaaa_aaaa_aaaa_aaaa);
    drop(packet);
    assert_eq!(&bytes[..8], &[0xaa_u8; 8]);
    assert_eq!(&bytes[8..], b"abcd");
}

#[test]
fn header_field_assignment_is_framed() {
    let mut bytes = [0_u8; 9];
    let mut packet = PacketMut::new(&mut bytes).unwrap();
    packet.header.sequence_number = 7;
    assert_eq!(packet.as_bytes(), &[0_u8, 0, 0, 0, 0, 0, 0, 7, 0][..]);
}

#[test]
fn framed_packet_parses_back() {
    let mut bytes = vec![0_u8; 26];
    for sequence_number in [0_u64, 1, 255, 256, 0xdead_beef, u64::MAX - 1, u64::MAX] {
        let mut packet = PacketMut::new(&mut bytes).unwrap();
        packet.set_sequence_number(sequence_number);
        packet.payload_mut().copy_from_slice(b"packetworks-source");
        let framed = packet.as_bytes().to_vec();
        let parsed = Packet::parse(&framed).unwrap();
        assert_eq!(parsed.sequence_number(), sequence_number);
        assert_eq!(parsed.payload(), b"packetworks-source");
    }
}

#[test]
fn reframing_leaves_bytes_unchanged() {
    let original = [9_u8, 8, 7, 6, 5, 4, 3, 2, 1, 0];
    let mut bytes = original;
    let mut packet = PacketMut::new(&mut bytes).unwrap();
    assert_eq!(packet.as_bytes(), &original[..]);
}

#[test]
fn framing_without_as_bytes_leaves_buffer_unchanged() {
    let original = [0_u8, 0, 0, 0, 0, 0, 0, 3, 4, 5];
    let mut bytes = original;
    {
        let mut packet = PacketMut::new(&mut bytes).unwrap();
        packet.set_sequence_number(99);
        assert_eq!(packet.sequence_number(), 99);
        assert_eq!(packet.payload(), &[4_u8, 5][..]);
    }
    assert_eq!(bytes, original);
}

#[test]
fn failed_framing_leaves_buffer_unchanged() {
    let original = [1_u8, 2, 3];
    let mut bytes = original;
    assert!(PacketMut::new(&mut bytes).is_err());
    assert_eq!(bytes, original);
}
