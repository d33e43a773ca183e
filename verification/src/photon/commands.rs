//! PhotonFeeder command packets and the parsing of their responses.

use vstd::prelude::*;
use vstd::string::StringSliceAdditionalSpecFns;

use crate::photon::packet::spec_hex_to_bytes;
use crate::photon::packet::Packet;
use crate::photon::packet::PacketView;
use crate::text::push_hex;
use crate::text::spec_hex;
use crate::text::string_from_chars;

verus! {

const BROADCAST: u8 = 0xFF;

/// PhotonFeeder error codes returned in response payloads.
#[derive(Debug, Clone, Copy, PartialEq, Eq, Structural)]
pub enum PhotonError {
    NoError,
    WrongFeederUuid,
    CouldNotReach,
    UninitializedFeeder,
    FeedingInProgress,
    Unknown(u8),
}

pub open spec fn spec_error_from_byte(b: u8) -> PhotonError {
    if b == 0 {
        PhotonError::NoError
    } else if b == 1 {
        PhotonError::WrongFeederUuid
    } else if b == 2 {
        PhotonError::CouldNotReach
    } else if b == 3 {
        PhotonError::UninitializedFeeder
    } else if b == 4 {
        PhotonError::FeedingInProgress
    } else {
        PhotonError::Unknown(b)
    }
}

/// The text that names an error code.
pub open spec fn spec_error_text(e: PhotonError) -> Seq<char> {
    match e {
        PhotonError::NoError => "None"@,
        PhotonError::WrongFeederUuid => "Wrong feeder UUID"@,
        PhotonError::CouldNotReach => "Could not reach feeder"@,
        PhotonError::UninitializedFeeder => "Uninitialized feeder"@,
        PhotonError::FeedingInProgress => "Feeding in progress"@,
        PhotonError::Unknown(code) => "Unknown error (0x"@ + spec_hex(seq![code]) + ")"@,
    }
}

impl PhotonError {
    pub fn from_byte(b: u8) -> (e: Self)
        ensures
            e == spec_error_from_byte(b),
    {
        match b {
            0x00 => PhotonError::NoError,
            0x01 => PhotonError::WrongFeederUuid,
            0x02 => PhotonError::CouldNotReach,
            0x03 => PhotonError::UninitializedFeeder,
            0x04 => PhotonError::FeedingInProgress,
            other => PhotonError::Unknown(other),
        }
    }

    pub fn is_ok(self) -> (b: bool)
        ensures
            b == (self == PhotonError::NoError),
    {
        match self {
            PhotonError::NoError => true,
            _ => false,
        }
    }

    /// Human-readable description of the error code.
    pub fn describe(&self) -> (s: String)
        ensures
            s@ == spec_error_text(*self),
    {
        match self {
            PhotonError::NoError => "None".to_string(),
            PhotonError::WrongFeederUuid => "Wrong feeder UUID".to_string(),
            PhotonError::CouldNotReach => "Could not reach feeder".to_string(),
            PhotonError::UninitializedFeeder => "Uninitialized feeder".to_string(),
            PhotonError::FeedingInProgress => "Feeding in progress".to_string(),
            PhotonError::Unknown(code) => {
                let mut out: Vec<char> = Vec::new();
                let mut b: Vec<u8> = Vec::new();
                b.push(*code);
                push_hex(&mut out, b.as_slice());
                let mut s = "Unknown error (0x".to_string();
                s.append(string_from_chars(out.as_slice()).as_str());
                s.append(")");
                proof {
                    assert(b@ =~= seq![*code]);
                }
                s
            },
        }
    }
}

// --- Command IDs ---
pub const GET_FEEDER_ID: u8 = 0x01;

pub const INITIALIZE_FEEDER: u8 = 0x02;

pub const GET_VERSION: u8 = 0x03;

pub const MOVE_FEED_FORWARD: u8 = 0x04;

pub const MOVE_FEED_BACKWARD: u8 = 0x05;

pub const MOVE_FEED_STATUS: u8 = 0x06;

pub const GET_FEEDER_ADDRESS: u8 = 0xC0;

pub const IDENTIFY_FEEDER: u8 = 0xC1;

/// A fresh packet to `to` carrying `payload`.
pub open spec fn command(to: u8, payload: Seq<u8>) -> PacketView {
    PacketView { to_address: to, from_address: 0, packet_id: 0, payload }
}

/// The payload of a command that carries a UUID after its command id; text
/// that is not valid hexadecimal adds nothing.
pub open spec fn uuid_payload(cmd: u8, uuid: Seq<u8>) -> Seq<u8> {
    match spec_hex_to_bytes(uuid) {
        Some(b) => seq![cmd] + b,
        None => seq![cmd],
    }
}

/// Build a GetFeederId packet. Response: error(1) + uuid(12).
pub fn get_feeder_id(address: u8) -> (p: Packet)
    ensures
        p@ == command(address, seq![GET_FEEDER_ID]),
{
    Packet::new(address, GET_FEEDER_ID)
}

/// Build an InitializeFeeder packet. Payload: uuid(12). Response: error(1) + uuid(12).
pub fn initialize_feeder(address: u8, uuid: &str) -> (p: Packet)
    ensures
        p@ == command(address, uuid_payload(INITIALIZE_FEEDER, uuid.spec_bytes())),
{
    let mut pkt = Packet::new(address, INITIALIZE_FEEDER);
    pkt.push_uuid(uuid);
    pkt
}

/// Build a GetVersion packet. Response: error(1).
pub fn get_version(address: u8) -> (p: Packet)
    ensures
        p@ == command(address, seq![GET_VERSION]),
{
    Packet::new(address, GET_VERSION)
}

/// Build a MoveFeedForward packet. Distance in 0.1mm increments.
/// Response: error(1) + expectedTime(2).
pub fn move_feed_forward(address: u8, distance_tenths_mm: u8) -> (p: Packet)
    ensures
        p@ == command(address, seq![MOVE_FEED_FORWARD, distance_tenths_mm]),
{
    let mut pkt = Packet::new(address, MOVE_FEED_FORWARD);
    pkt.push_byte(distance_tenths_mm);
    assert(pkt@.payload =~= seq![MOVE_FEED_FORWARD, distance_tenths_mm]);
    pkt
}

/// Build a MoveFeedBackward packet. Distance in 0.1mm increments.
/// Response: error(1) + expectedTime(2).
pub fn move_feed_backward(address: u8, distance_tenths_mm: u8) -> (p: Packet)
    ensures
        p@ == command(address, seq![MOVE_FEED_BACKWARD, distance_tenths_mm]),
{
    let mut pkt = Packet::new(address, MOVE_FEED_BACKWARD);
    pkt.push_byte(distance_tenths_mm);
    assert(pkt@.payload =~= seq![MOVE_FEED_BACKWARD, distance_tenths_mm]);
    pkt
}

/// Build a MoveFeedStatus packet. Response: error(1).
pub fn move_feed_status(address: u8) -> (p: Packet)
    ensures
        p@ == command(address, seq![MOVE_FEED_STATUS]),
{
    Packet::new(address, MOVE_FEED_STATUS)
}

/// Build a GetFeederAddress broadcast packet. Payload: uuid(12). Response: error(1).
pub fn get_feeder_address(uuid: &str) -> (p: Packet)
    ensures
        p@ == command(0xFF, uuid_payload(GET_FEEDER_ADDRESS, uuid.spec_bytes())),
{
    let mut pkt = Packet::new(BROADCAST, GET_FEEDER_ADDRESS);
    pkt.push_uuid(uuid);
    pkt
}

/// Build an IdentifyFeeder broadcast packet. Payload: uuid(12). Response: error(1).
pub fn identify_feeder(uuid: &str) -> (p: Packet)
    ensures
        p@ == command(0xFF, uuid_payload(IDENTIFY_FEEDER, uuid.spec_bytes())),
{
    let mut pkt = Packet::new(BROADCAST, IDENTIFY_FEEDER);
    pkt.push_uuid(uuid);
    pkt
}

// --- Response parsers ---
pub struct FeederIdResponse {
    pub error: PhotonError,
    pub uuid: Option<String>,
}

/// Response to GetFeederId or InitializeFeeder: exactly error(1) + uuid(12).
pub fn parse_feeder_id(packet: &Packet) -> (r: Option<FeederIdResponse>)
    ensures
        r is Some <==> packet.payload@.len() == 13,
        r matches Some(resp) ==> {
            &&& resp.error == spec_error_from_byte(packet.payload@[0])
            &&& resp.uuid matches Some(u)
            &&& u@ == spec_hex(packet.payload@.subrange(1, 13))
        },
{
    if packet.payload.len() != 13 {
        return None;
    }
    Some(FeederIdResponse { error: PhotonError::from_byte(packet.payload[0]), uuid: packet.uuid(1) })
}

pub struct FeedResponse {
    pub error: PhotonError,
    pub expected_time_ms: u16,
}

/// Response to a feed move: error(1) + expectedTime(2). The time is read only
/// when the error byte says success, and is zero when it is missing.
pub fn parse_feed_response(packet: &Packet) -> (r: Option<FeedResponse>)
    ensures
        r is Some <==> packet.payload@.len() > 0,
        r matches Some(resp) ==> {
            let p = packet.payload@;
            &&& resp.error == spec_error_from_byte(p[0])
            &&& resp.expected_time_ms == if resp.error == PhotonError::NoError && p.len() >= 3 {
                p[1] * 256 + p[2]
            } else {
                0
            }
        },
{
    if packet.payload.len() == 0 {
        return None;
    }
    let error = PhotonError::from_byte(packet.payload[0]);
    let expected_time_ms = if error.is_ok() {
        match packet.uint16(1) {
            Some(v) => v,
            None => 0,
        }
    } else {
        0
    };
    Some(FeedResponse { error, expected_time_ms })
}

pub struct StatusResponse {
    pub error: PhotonError,
}

/// Response that carries only an error byte.
pub fn parse_status_response(packet: &Packet) -> (r: Option<StatusResponse>)
    ensures
        r is Some <==> packet.payload@.len() == 1,
        r matches Some(resp) ==> resp.error == spec_error_from_byte(packet.payload@[0]),
{
    if packet.payload.len() != 1 {
        return None;
    }
    Some(StatusResponse { error: PhotonError::from_byte(packet.payload[0]) })
}

} // verus!
