use lnp2::photon::bus::{
    accept_reply, address_result, feed_poll, feed_result, feeder_id_result, initialize_result,
    prepare_request, status_result, BusError, FeedPoll,
};
use lnp2::photon::commands::{
    get_feeder_address, get_feeder_id, get_version, identify_feeder, initialize_feeder,
    move_feed_backward, move_feed_forward, move_feed_status, parse_feed_response,
    parse_feeder_id, parse_status_response, PhotonError, GET_FEEDER_ADDRESS, GET_FEEDER_ID,
    GET_VERSION, IDENTIFY_FEEDER, INITIALIZE_FEEDER, MOVE_FEED_BACKWARD, MOVE_FEED_FORWARD,
    MOVE_FEED_STATUS,
};
use lnp2::photon::packet::{crc8_107, hex_to_bytes, Packet};

const UUID: &str = "0007800B4248571720343331";
const UUID_BYTES: [u8; 12] = [
    0x00, 0x07, 0x80, 0x0B, 0x42, 0x48, 0x57, 0x17, 0x20, 0x34, 0x33, 0x31,
];

fn packet(from_address: u8, packet_id: u8, payload: Vec<u8>) -> Packet {
    Packet {
        to_address: 0,
        from_address,
        packet_id,
        payload,
    }
}

#[test]
fn test_crc8_107_known_values() {
    let data = [0x2B, 0x13, 0x47, 0x01, 0x03];
    assert_eq!(crc8_107(&data), 0x0A);
}

#[test]
fn test_encode_packet() {
    let packet = Packet {
        to_address: 0x2B,
        from_address: 0x13,
        packet_id: 0x47,
        payload: vec![0x03],
    };
    assert_eq!(packet.encode(), "2B1347010A03");
}

#[test]
fn test_decode_valid_packet() {
    let packet = Packet::decode("2B1347010A03").unwrap();
    assert_eq!(packet.to_address, 0x2B);
    assert_eq!(packet.from_address, 0x13);
    assert_eq!(packet.packet_id, 0x47);
    assert_eq!(packet.payload, vec![0x03]);
}

#[test]
fn test_decode_empty_string() {
    assert!(Packet::decode("").is_none());
}

#[test]
fn test_decode_odd_length() {
    assert!(Packet::decode("01234").is_none());
}

#[test]
fn test_decode_bad_checksum() {
    assert!(Packet::decode("2B000001C903").is_none());
}

#[test]
fn test_decode_wrong_length_short() {
    assert!(Packet::decode("2B000000D203").is_none());
}

#[test]
fn test_decode_wrong_length_long() {
    assert!(Packet::decode("2B000002F803").is_none());
}

#[test]
fn test_decode_timeout() {
    assert!(Packet::decode("TIMEOUT").is_none());
}

#[test]
fn test_roundtrip() {
    let original = Packet {
        to_address: 0xFF,
        from_address: 0x00,
        packet_id: 0x05,
        payload: vec![0xC0, 0x01, 0x02, 0x03],
    };
    let hex = original.encode();
    let decoded = Packet::decode(&hex).unwrap();
    assert_eq!(decoded.to_address, original.to_address);
    assert_eq!(decoded.from_address, original.from_address);
    assert_eq!(decoded.packet_id, original.packet_id);
    assert_eq!(decoded.payload, original.payload);
}

#[test]
fn test_uuid_extraction() {
    let mut payload = vec![0x00];
    payload.extend_from_slice(&UUID_BYTES);
    let packet = packet(0, 0, payload);
    assert_eq!(packet.uuid(1).unwrap(), UUID);
}

#[test]
fn test_uint16() {
    let packet = packet(0, 0, vec![0x00, 0x01, 0xF4]);
    assert_eq!(packet.uint16(1).unwrap(), 500);
}

#[test]
fn test_get_feeder_id_packet() {
    let pkt = get_feeder_id(0x22);
    assert_eq!(pkt.to_address, 0x22);
    assert_eq!(pkt.payload, vec![GET_FEEDER_ID]);
}

#[test]
fn test_initialize_feeder_packet() {
    let pkt = initialize_feeder(0x22, UUID);
    assert_eq!(pkt.to_address, 0x22);
    assert_eq!(pkt.payload.len(), 13);
    assert_eq!(pkt.payload[0], INITIALIZE_FEEDER);
}

#[test]
fn test_move_feed_forward_packet() {
    let pkt = move_feed_forward(0x01, 20);
    assert_eq!(pkt.payload, vec![MOVE_FEED_FORWARD, 20]);
}

#[test]
fn test_get_feeder_address_broadcast() {
    let pkt = get_feeder_address(UUID);
    assert_eq!(pkt.to_address, 0xFF);
    assert_eq!(pkt.payload[0], GET_FEEDER_ADDRESS);
    assert_eq!(pkt.payload.len(), 13);
}

#[test]
fn test_parse_feeder_id_response() {
    let mut payload = vec![0x00];
    payload.extend_from_slice(&UUID_BYTES);
    let packet = packet(0x22, 0, payload);
    let resp = parse_feeder_id(&packet).unwrap();
    assert!(resp.error.is_ok());
    assert_eq!(resp.uuid.unwrap(), UUID);
}

#[test]
fn test_parse_feed_response() {
    let packet = packet(0x01, 0, vec![0x00, 0x01, 0xF4]);
    let resp = parse_feed_response(&packet).unwrap();
    assert!(resp.error.is_ok());
    assert_eq!(resp.expected_time_ms, 500);
}

#[test]
fn test_parse_status_feeding_in_progress() {
    let packet = packet(0x01, 0, vec![0x04]);
    let resp = parse_status_response(&packet).unwrap();
    assert_eq!(resp.error, PhotonError::FeedingInProgress);
}

#[test]
fn test_parse_status_done() {
    let packet = packet(0x01, 0, vec![0x00]);
    let resp = parse_status_response(&packet).unwrap();
    assert!(resp.error.is_ok());
}

// --- Further cases ---

#[test]
fn other_command_packets() {
    assert_eq!(get_version(7).payload, vec![GET_VERSION]);
    assert_eq!(move_feed_backward(7, 15).payload, vec![MOVE_FEED_BACKWARD, 15]);
    assert_eq!(move_feed_status(7).payload, vec![MOVE_FEED_STATUS]);
    let ident = identify_feeder(UUID);
    assert_eq!(ident.to_address, 0xFF);
    assert_eq!(ident.payload[0], IDENTIFY_FEEDER);
    assert_eq!(&ident.payload[1..], &UUID_BYTES);
}

#[test]
fn photon_error_bytes() {
    assert_eq!(PhotonError::from_byte(0), PhotonError::NoError);
    assert_eq!(PhotonError::from_byte(1), PhotonError::WrongFeederUuid);
    assert_eq!(PhotonError::from_byte(2), PhotonError::CouldNotReach);
    assert_eq!(PhotonError::from_byte(3), PhotonError::UninitializedFeeder);
    assert_eq!(PhotonError::from_byte(4), PhotonError::FeedingInProgress);
    assert_eq!(PhotonError::from_byte(9), PhotonError::Unknown(9));
    assert!(PhotonError::NoError.is_ok());
    assert!(!PhotonError::CouldNotReach.is_ok());
    assert_eq!(PhotonError::Unknown(9).describe(), "Unknown error (0x09)");
}

#[test]
fn hex_to_bytes_cases() {
    assert_eq!(hex_to_bytes("0aFF"), Some(vec![0x0A, 0xFF]));
    assert_eq!(hex_to_bytes("abc"), None);
    assert_eq!(hex_to_bytes("zz"), None);
    assert_eq!(hex_to_bytes(""), Some(vec![]));
    assert_eq!(hex_to_bytes("+1"), None);
    assert_eq!(hex_to_bytes("1+"), None);
    assert_eq!(hex_to_bytes("0\u{e9}0"), None);
}

#[test]
fn uuid_and_uint16_out_of_range() {
    let p = packet(0, 0, vec![0x00, 0x01]);
    assert!(p.uuid(1).is_none());
    assert!(p.uint16(1).is_none());
}

#[test]
fn packet_builders() {
    let mut p = Packet::new(0x22, 0x04);
    assert_eq!(p.to_address, 0x22);
    assert_eq!(p.payload, vec![0x04]);
    p.push_byte(0x10);
    p.push_uuid(UUID);
    assert_eq!(p.payload.len(), 14);
    assert_eq!(&p.payload[2..], &UUID_BYTES);
}

#[test]
fn prepare_request_frames_m485() {
    let (p, cmd) = prepare_request(get_feeder_id(0x2B), 0x13, 0x47);
    assert_eq!(p.from_address, 0x13);
    assert_eq!(p.packet_id, 0x47);
    assert_eq!(cmd, format!("M485 {}", p.encode()));
}

#[test]
fn accept_reply_cases() {
    let ok = accept_reply(0x47, "rs485-reply: 2B1347010A03\nok").unwrap();
    assert_eq!(ok.payload, vec![0x03]);
    assert!(matches!(accept_reply(0x47, "ok"), Err(BusError::NoReply)));
    assert!(matches!(
        accept_reply(0x47, "rs485-reply: 2B000001C903\nok"),
        Err(BusError::InvalidPacket)
    ));
    assert!(matches!(
        accept_reply(0x48, "rs485-reply: 2B1347010A03\nok"),
        Err(BusError::PacketIdMismatch { expected: 0x48, got: 0x47 })
    ));
}

#[test]
fn reply_results() {
    let mut payload = vec![0x00];
    payload.extend_from_slice(&UUID_BYTES);
    let id_reply = packet(0x22, 0, payload.clone());
    assert_eq!(feeder_id_result(&id_reply).unwrap(), UUID);
    assert!(initialize_result(&id_reply).is_ok());
    payload[0] = 0x01;
    assert!(matches!(
        feeder_id_result(&packet(0x22, 0, payload)),
        Err(BusError::FeederError(PhotonError::WrongFeederUuid))
    ));
    assert!(matches!(feeder_id_result(&packet(0x22, 0, vec![0])), Err(BusError::InvalidResponse)));
    assert_eq!(feed_result(&packet(1, 0, vec![0, 0x01, 0xF4])).unwrap(), 500);
    assert_eq!(feed_result(&packet(1, 0, vec![0])).unwrap(), 0);
    assert!(status_result(&packet(1, 0, vec![0])).is_ok());
    assert!(matches!(status_result(&packet(1, 0, vec![])), Err(BusError::InvalidResponse)));
    assert_eq!(address_result(&packet(0x22, 0, vec![0])).unwrap(), 0x22);
}

#[test]
fn feed_poll_cases() {
    assert_eq!(feed_poll(&packet(1, 0, vec![0]), 0, 5000).unwrap(), FeedPoll::Complete);
    assert_eq!(feed_poll(&packet(1, 0, vec![4]), 100, 5000).unwrap(), FeedPoll::Wait);
    assert!(matches!(
        feed_poll(&packet(1, 0, vec![4]), 5001, 5000),
        Err(BusError::FeedTimeout(5000))
    ));
    assert!(matches!(
        feed_poll(&packet(1, 0, vec![2]), 0, 5000),
        Err(BusError::FeederError(PhotonError::CouldNotReach))
    ));
}

#[test]
fn bus_error_descriptions() {
    assert_eq!(
        BusError::PacketIdMismatch { expected: 3, got: 4 }.describe(),
        "Packet ID mismatch (expected 3, got 4)"
    );
    assert_eq!(BusError::FeedTimeout(5000).describe(), "Feed timeout after 5000ms");
    assert_eq!(
        BusError::FeederError(PhotonError::FeedingInProgress).describe(),
        "Feeder error: Feeding in progress"
    );
}

#[test]
fn decode_rejects_plus_sign_pairs() {
    let valid = Packet::new(0x01, 0x05).encode();
    assert!(valid.starts_with('0'));
    assert!(Packet::decode(&valid).is_some());
    let with_plus = format!("+{}", &valid[1..]);
    assert!(Packet::decode(&with_plus).is_none());
}

#[test]
fn decode_rejects_non_ascii_text() {
    assert!(Packet::decode("0\u{e9}0000000").is_none());
    assert!(Packet::decode("\u{e9}\u{e9}\u{e9}\u{e9}\u{e9}").is_none());
}

#[test]
fn crc8_check_value_and_residue() {
    assert_eq!(crc8_107(b"123456789"), 0xF4);
    assert_eq!(crc8_107(&[]), 0);
    let data = [0x00u8, 0x01, 0x02, 0x03, 0x04, 0x05];
    let mut with_crc = data.to_vec();
    with_crc.push(crc8_107(&data));
    assert_eq!(crc8_107(&with_crc), 0);
}
