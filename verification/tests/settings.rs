use packetworks::settings::{RunSettingsError, check_run_settings};
use packetworks::wire::{PacketMut, write_payload_prefix};

#[test]
fn run_settings_reject_packet_smaller_than_header() {
    assert_eq!(
        check_run_settings(7, 0),
        Err(RunSettingsError::PacketSizeTooSmall { packet_size: 7, minimum_size: 8 })
    );
}

#[test]
fn run_settings_reject_zero_interval() {
    assert_eq!(check_run_settings(8, 0), Err(RunSettingsError::ZeroStatsInterval));
}

#[test]
fn run_settings_accept_header_sized_packets_and_positive_interval() {
    assert_eq!(check_run_settings(8, 1), Ok(()));
    assert_eq!(check_run_settings(1200, 5), Ok(()));
}

#[test]
fn payload_prefix_fills_short_payload_with_start_of_body() {
    let mut payload = [0_u8; 4];
    write_payload_prefix(&mut payload, b"packetworks");
    assert_eq!(&payload, b"pack");
}

#[test]
fn payload_prefix_leaves_rest_of_long_payload() {
    let mut payload = [7_u8; 6];
    write_payload_prefix(&mut payload, b"abc");
    assert_eq!(payload, [b'a', b'b', b'c', 7, 7, 7]);
}

#[test]
fn payload_prefix_in_framed_packet_keeps_header() {
    let mut bytes = [0_u8; 12];
    let mut packet = PacketMut::new(&mut bytes).unwrap();
    write_payload_prefix(packet.payload_mut(), b"source");
    packet.set_sequence_number(258);
    assert_eq!(packet.as_bytes(), &[0_u8, 0, 0, 0, 0, 0, 1, 2, b's', b'o', b'u', b'r'][..]);
}
