//! The decisions of the PhotonFeeder bus: framing a request for the `M485`
//! command, accepting the controller's reply, and interpreting each response.

use vstd::prelude::*;
use vstd::string::StringSliceAdditionalSpecFns;
use vstd::utf8::encode_utf8;

use crate::gcode::parser::parse_rs485;
use crate::gcode::parser::spec_parse_rs485;
use crate::gcode::GCodeError;
use crate::gcode::spec_gcode_error_text;
use crate::photon::commands::parse_feed_response;
use crate::photon::commands::parse_feeder_id;
use crate::photon::commands::parse_status_response;
use crate::photon::commands::spec_error_from_byte;
use crate::photon::commands::spec_error_text;
use crate::photon::commands::PhotonError;
use crate::photon::packet::spec_decode;
use crate::photon::packet::spec_encode;
use crate::photon::packet::Packet;
use crate::photon::packet::PacketView;
use crate::text::push_decimal;
use crate::text::spec_decimal;
use crate::text::spec_hex;
use crate::text::string_from_chars;

verus! {

/// How long a feed may stay in progress before it counts as failed, in ms.
pub const FEED_TIMEOUT_MS: u64 = 5000;

/// Pause between two status polls of a feed in progress, in ms.
pub const FEED_POLL_INTERVAL_MS: u64 = 50;

#[derive(Debug, Clone)]
pub enum BusError {
    GCode(GCodeError),
    NoReply,
    InvalidPacket,
    PacketIdMismatch { expected: u8, got: u8 },
    FeederError(PhotonError),
    InvalidResponse,
    FeedTimeout(u64),
}

pub open spec fn spec_bus_error_text(e: BusError) -> Seq<char> {
    match e {
        BusError::GCode(g) => "GCode error: "@ + spec_gcode_error_text(g),
        BusError::NoReply => "No RS-485 reply in response"@,
        BusError::InvalidPacket => "Invalid packet in reply"@,
        BusError::PacketIdMismatch { expected, got } => "Packet ID mismatch (expected "@
            + spec_decimal(expected as nat) + ", got "@ + spec_decimal(got as nat) + ")"@,
        BusError::FeederError(p) => "Feeder error: "@ + spec_error_text(p),
        BusError::InvalidResponse => "Invalid response payload"@,
        BusError::FeedTimeout(ms) => "Feed timeout after "@ + spec_decimal(ms as nat) + "ms"@,
    }
}

impl BusError {
    /// Human-readable description of the error.
    pub fn describe(&self) -> (s: String)
        ensures
            s@ == spec_bus_error_text(*self),
    {
        match self {
            BusError::GCode(g) => {
                let mut s = "GCode error: ".to_string();
                s.append(g.describe().as_str());
                s
            },
            BusError::NoReply => "No RS-485 reply in response".to_string(),
            BusError::InvalidPacket => "Invalid packet in reply".to_string(),
            BusError::PacketIdMismatch { expected, got } => {
                let mut e: Vec<char> = Vec::new();
                push_decimal(&mut e, *expected as u64);
                let mut g: Vec<char> = Vec::new();
                push_decimal(&mut g, *got as u64);
                let mut s = "Packet ID mismatch (expected ".to_string();
                s.append(string_from_chars(e.as_slice()).as_str());
                s.append(", got ");
                s.append(string_from_chars(g.as_slice()).as_str());
                s.append(")");
                assert(e@ =~= spec_decimal(*expected as nat));
                assert(g@ =~= spec_decimal(*got as nat));
                s
            },
            BusError::FeederError(p) => {
                let mut s = "Feeder error: ".to_string();
                s.append(p.describe().as_str());
                s
            },
            BusError::InvalidResponse => "Invalid response payload".to_string(),
            BusError::FeedTimeout(ms) => {
                let mut d: Vec<char> = Vec::new();
                push_decimal(&mut d, *ms);
                let mut s = "Feed timeout after ".to_string();
                s.append(string_from_chars(d.as_slice()).as_str());
                s.append("ms");
                assert(d@ =~= spec_decimal(*ms as nat));
                s
            },
        }
    }
}

/// The G-code command that carries a packet over the RS-485 bus.
pub open spec fn spec_m485(p: PacketView) -> Seq<char> {
    "M485 "@ + spec_encode(p)
}

/// Stamps a packet with the bus's source address and the next packet id, and
/// frames it as an `M485` command.
pub fn prepare_request(packet: Packet, from_address: u8, packet_id: u8) -> (r: (Packet, String))
    ensures
        r.0@ == (PacketView { from_address, packet_id, ..packet@ }),
        r.1@ == spec_m485(r.0@),
{
    let mut packet = packet;
    packet.from_address = from_address;
    packet.packet_id = packet_id;
    let hex = packet.encode();
    let mut cmd = "M485 ".to_string();
    cmd.append(hex.as_str());
    (packet, cmd)
}

/// What the controller's reply to an `M485` command means: no RS-485 reply,
/// a reply that is not a valid packet, a reply to another packet, or the reply.
pub open spec fn spec_accept_reply(expected_id: u8, response: Seq<char>) -> Result<
    PacketView,
    BusError,
> {
    match spec_parse_rs485(response) {
        None => Err(BusError::NoReply),
        Some(h) => match spec_decode(encode_utf8(h)) {
            None => Err(BusError::InvalidPacket),
            Some(p) => if p.packet_id != expected_id {
                Err(BusError::PacketIdMismatch { expected: expected_id, got: p.packet_id })
            } else {
                Ok(p)
            },
        },
    }
}

/// Accepts the controller's reply to a request with packet id `expected_id`.
pub fn accept_reply(expected_id: u8, response: &str) -> (r: Result<Packet, BusError>)
    ensures
        match r {
            Ok(p) => spec_accept_reply(expected_id, response@) == Ok::<PacketView, BusError>(p@),
            Err(e) => spec_accept_reply(expected_id, response@) == Err::<PacketView, BusError>(e),
        },
{
    let reply_hex = match parse_rs485(response) {
        Some(h) => h,
        None => return Err(BusError::NoReply),
    };
    let reply = match Packet::decode(reply_hex.as_str()) {
        Some(p) => p,
        None => return Err(BusError::InvalidPacket),
    };
    if reply.packet_id != expected_id {
        return Err(BusError::PacketIdMismatch { expected: expected_id, got: reply.packet_id });
    }
    Ok(reply)
}

/// Interprets the reply to GetFeederId: the feeder's UUID as hex text.
pub fn feeder_id_result(reply: &Packet) -> (r: Result<String, BusError>)
    ensures
        reply.payload@.len() != 13 ==> r == Err::<String, BusError>(BusError::InvalidResponse),
        reply.payload@.len() == 13 && reply.payload@[0] != 0 ==> r == Err::<String, BusError>(
            BusError::FeederError(spec_error_from_byte(reply.payload@[0])),
        ),
        reply.payload@.len() == 13 && reply.payload@[0] == 0 ==> (r matches Ok(u) && u@ == spec_hex(
            reply.payload@.subrange(1, 13),
        )),
{
    let resp = match parse_feeder_id(reply) {
        Some(r) => r,
        None => return Err(BusError::InvalidResponse),
    };
    if !resp.error.is_ok() {
        return Err(BusError::FeederError(resp.error));
    }
    match resp.uuid {
        Some(u) => Ok(u),
        None => Err(BusError::InvalidResponse),
    }
}

/// Interprets the reply to InitializeFeeder.
pub fn initialize_result(reply: &Packet) -> (r: Result<(), BusError>)
    ensures
        reply.payload@.len() != 13 ==> r == Err::<(), BusError>(BusError::InvalidResponse),
        reply.payload@.len() == 13 && reply.payload@[0] != 0 ==> r == Err::<(), BusError>(
            BusError::FeederError(spec_error_from_byte(reply.payload@[0])),
        ),
        reply.payload@.len() == 13 && reply.payload@[0] == 0 ==> r == Ok::<(), BusError>(()),
{
    let resp = match parse_feeder_id(reply) {
        Some(r) => r,
        None => return Err(BusError::InvalidResponse),
    };
    if !resp.error.is_ok() {
        return Err(BusError::FeederError(resp.error));
    }
    Ok(())
}

/// Interprets the reply to a feed move: the expected feed time in ms.
pub fn feed_result(reply: &Packet) -> (r: Result<u16, BusError>)
    ensures
        reply.payload@.len() == 0 ==> r == Err::<u16, BusError>(BusError::InvalidResponse),
        reply.payload@.len() > 0 && reply.payload@[0] != 0 ==> r == Err::<u16, BusError>(
            BusError::FeederError(spec_error_from_byte(reply.payload@[0])),
        ),
        reply.payload@.len() > 0 && reply.payload@[0] == 0 ==> r == Ok::<u16, BusError>(
            if reply.payload@.len() >= 3 {
                (reply.payload@[1] * 256 + reply.payload@[2]) as u16
            } else {
                0
            },
        ),
{
    let resp = match parse_feed_response(reply) {
        Some(r) => r,
        None => return Err(BusError::InvalidResponse),
    };
    if !resp.error.is_ok() {
        return Err(BusError::FeederError(resp.error));
    }
    Ok(resp.expected_time_ms)
}

/// Interprets a reply that carries only an error byte.
pub fn status_result(reply: &Packet) -> (r: Result<(), BusError>)
    ensures
        reply.payload@.len() != 1 ==> r == Err::<(), BusError>(BusError::InvalidResponse),
        reply.payload@.len() == 1 && reply.payload@[0] != 0 ==> r == Err::<(), BusError>(
            BusError::FeederError(spec_error_from_byte(reply.payload@[0])),
        ),
        reply.payload@.len() == 1 && reply.payload@[0] == 0 ==> r == Ok::<(), BusError>(()),
{
    let resp = match parse_status_response(reply) {
        Some(r) => r,
        None => return Err(BusError::InvalidResponse),
    };
    if !resp.error.is_ok() {
        return Err(BusError::FeederError(resp.error));
    }
    Ok(())
}

/// Interprets the reply to GetFeederAddress: the address the reply came from.
pub fn address_result(reply: &Packet) -> (r: Result<u8, BusError>)
    ensures
        reply.payload@.len() != 1 ==> r == Err::<u8, BusError>(BusError::InvalidResponse),
        reply.payload@.len() == 1 && reply.payload@[0] != 0 ==> r == Err::<u8, BusError>(
            BusError::FeederError(spec_error_from_byte(reply.payload@[0])),
        ),
        reply.payload@.len() == 1 && reply.payload@[0] == 0 ==> r == Ok::<u8, BusError>(
            reply.from_address,
        ),
{
    match status_result(reply) {
        Ok(()) => Ok(reply.from_address),
        Err(e) => Err(e),
    }
}

/// What to do after polling a feed's status.
#[derive(Debug, PartialEq, Eq, Structural)]
pub enum FeedPoll {
    /// The feed is complete.
    Complete,
    /// The feed is still in progress; poll again.
    Wait,
}

/// Interprets the reply to MoveFeedStatus while waiting for a feed, `elapsed_ms`
/// after the polling started.
pub fn feed_poll(reply: &Packet, elapsed_ms: u64, timeout_ms: u64) -> (r: Result<
    FeedPoll,
    BusError,
>)
    ensures
        ({
            let p = reply.payload@;
            if p.len() != 1 {
                r == Err::<FeedPoll, BusError>(BusError::InvalidResponse)
            } else if p[0] == 0 {
                r == Ok::<FeedPoll, BusError>(FeedPoll::Complete)
            } else if p[0] != 4 {
                r == Err::<FeedPoll, BusError>(BusError::FeederError(spec_error_from_byte(p[0])))
            } else if elapsed_ms > timeout_ms {
                r == Err::<FeedPoll, BusError>(BusError::FeedTimeout(timeout_ms))
            } else {
                r == Ok::<FeedPoll, BusError>(FeedPoll::Wait)
            }
        }),
{
    let resp = match parse_status_response(reply) {
        Some(r) => r,
        None => return Err(BusError::InvalidResponse),
    };
    if resp.error.is_ok() {
        return Ok(FeedPoll::Complete);
    }
    match resp.error {
        PhotonError::FeedingInProgress => {},
        e => return Err(BusError::FeederError(e)),
    }
    if elapsed_ms > timeout_ms {
        return Err(BusError::FeedTimeout(timeout_ms));
    }
    Ok(FeedPoll::Wait)
}

} // verus!
