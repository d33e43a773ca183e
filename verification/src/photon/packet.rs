//! PhotonFeeder packets and their hexadecimal wire form.
//!
//! Wire format: a five-byte header `[ToAddr, FromAddr, PacketID, PayloadLen, CRC8]`
//! followed by the payload `[CommandID, ...data]`, written as upper-case hex.

use vstd::prelude::*;
use vstd::utf8::encode_utf8;
use vstd::utf8::is_ascii_chars;
use vstd::utf8::is_ascii_chars_encode_utf8;
use vstd::string::StringSliceAdditionalSpecFns;

use crate::text::push_hex;
use crate::text::spec_hex;
use crate::text::spec_hex_digit;
use crate::text::string_from_chars;

verus! {

/// One shift step of the CRC register with polynomial 0x107.
pub open spec fn crc_shift(crc: u16) -> u16 {
    let c = if crc & 0x8000u16 != 0 {
        crc ^ 0x8380u16
    } else {
        crc
    };
    c << 1u16
}

/// `n` shift steps of the CRC register.
pub open spec fn crc_shifts(crc: u16, n: nat) -> u16
    decreases n,
{
    if n == 0 {
        crc
    } else {
        crc_shift(crc_shifts(crc, (n - 1) as nat))
    }
}

/// The CRC register after feeding one byte.
pub open spec fn crc_feed(crc: u16, b: u8) -> u16 {
    crc_shifts(crc ^ ((b as u16) << 8u16), 8)
}

/// The CRC register after feeding all of `data`, starting from zero.
pub open spec fn crc_register(data: Seq<u8>) -> u16
    decreases data.len(),
{
    if data.len() == 0 {
        0
    } else {
        crc_feed(crc_register(data.drop_last()), data.last())
    }
}

/// CRC8 with polynomial 0x107 (the high byte of the register).
pub open spec fn spec_crc8_107(data: Seq<u8>) -> u8 {
    ((crc_register(data) >> 8u16) & 0xFFu16) as u8
}

/// One bit step of the byte-wide CRC-8 register with polynomial 0x107
/// (0x07 once the top bit is shifted out).
pub open spec fn crc8_step(c: u8) -> u8 {
    if c & 0x80u8 != 0 {
        (c << 1u8) ^ 0x07u8
    } else {
        c << 1u8
    }
}

/// `n` bit steps of the byte-wide register.
pub open spec fn crc8_steps(c: u8, n: nat) -> u8
    decreases n,
{
    if n == 0 {
        c
    } else {
        crc8_step(crc8_steps(c, (n - 1) as nat))
    }
}

/// CRC-8 in its usual byte-at-a-time form: polynomial 0x107, initial value 0,
/// unreflected, no final xor.
pub open spec fn crc8_fold(data: Seq<u8>) -> u8 {
    data.fold_left(0u8, |c: u8, b: u8| crc8_steps(c ^ b, 8))
}

proof fn lemma_shift_is_step(x: u8)
    ensures
        crc_shift((x as u16) << 8u16) == (crc8_step(x) as u16) << 8u16,
{
    let r = (x as u16) << 8u16;
    assert((if r & 0x8000u16 != 0 { r ^ 0x8380u16 } else { r }) << 1u16 == ((if x & 0x80u8 != 0 {
        (x << 1u8) ^ 0x07u8
    } else {
        x << 1u8
    }) as u16) << 8u16) by (bit_vector)
        requires
            r == (x as u16) << 8u16,
    ;
}

proof fn lemma_shifts_are_steps(x: u8, n: nat)
    ensures
        crc_shifts((x as u16) << 8u16, n) == (crc8_steps(x, n) as u16) << 8u16,
    decreases n,
{
    if n > 0 {
        lemma_shifts_are_steps(x, (n - 1) as nat);
        lemma_shift_is_step(crc8_steps(x, (n - 1) as nat));
    }
}

proof fn lemma_register_is_fold(data: Seq<u8>)
    ensures
        crc_register(data) == (crc8_fold(data) as u16) << 8u16,
    decreases data.len(),
{
    if data.len() == 0 {
        assert(((0u8 as u16) << 8u16) == 0u16) by (bit_vector);
    } else {
        let pre = data.drop_last();
        let b = data.last();
        lemma_register_is_fold(pre);
        let f = crc8_fold(pre);
        let r = (f as u16) << 8u16;
        assert(r ^ ((b as u16) << 8u16) == ((f ^ b) as u16) << 8u16) by (bit_vector)
            requires
                r == (f as u16) << 8u16,
        ;
        lemma_shifts_are_steps(f ^ b, 8);
    }
}

proof fn lemma_steps_of_zero(n: nat)
    ensures
        crc8_steps(0, n) == 0,
    decreases n,
{
    if n > 0 {
        lemma_steps_of_zero((n - 1) as nat);
        assert(crc8_step(0u8) == 0u8) by (bit_vector);
    }
}

/// The checksum is the usual byte-at-a-time CRC-8 with polynomial 0x107,
/// initial value 0, unreflected and without a final xor.
pub proof fn lemma_crc8_is_fold(data: Seq<u8>)
    ensures
        spec_crc8_107(data) == crc8_fold(data),
{
    lemma_register_is_fold(data);
    let f = crc8_fold(data);
    assert((((f as u16) << 8u16) >> 8u16) & 0xFFu16 == f as u16) by (bit_vector);
}

/// Appending its checksum to a message gives a message whose checksum is 0.
pub proof fn lemma_crc8_residue(data: Seq<u8>)
    ensures
        spec_crc8_107(data.push(spec_crc8_107(data))) == 0,
{
    let c = spec_crc8_107(data);
    let d = data.push(c);
    lemma_crc8_is_fold(data);
    lemma_crc8_is_fold(d);
    assert(d.drop_last() =~= data);
    assert(c ^ c == 0u8) by (bit_vector);
    lemma_steps_of_zero(8);
}

/// CRC8-107 checksum used by the PhotonFeeder protocol.
pub fn crc8_107(data: &[u8]) -> (r: u8)
    ensures
        r == spec_crc8_107(data@),
        r == crc8_fold(data@),
{
    proof {
        lemma_crc8_is_fold(data@);
    }
    let mut crc: u16 = 0;
    let mut i: usize = 0;
    while i < data.len()
        invariant
            i <= data@.len(),
            crc == crc_register(data@.subrange(0, i as int)),
        decreases data@.len() - i,
    {
        let byte = data[i];
        crc = crc ^ ((byte as u16) << 8u16);
        let ghost start = crc;
        let mut j: u8 = 0;
        while j < 8
            invariant
                j <= 8,
                crc == crc_shifts(start, j as nat),
            decreases 8 - j,
        {
            let poly: u16 = 0x1070u16 << 3u16;
            assert(poly == 0x8380u16) by (bit_vector)
                requires
                    poly == 0x1070u16 << 3u16,
            ;
            if crc & 0x8000 != 0 {
                crc = crc ^ poly;
            }
            crc = crc << 1u16;
            j += 1;
        }
        proof {
            assert(data@.subrange(0, i + 1).drop_last() =~= data@.subrange(0, i as int));
        }
        i += 1;
    }
    assert(data@.subrange(0, data@.len() as int) =~= data@);
    let high = (crc >> 8u16) & 0xFFu16;
    (#[verifier::truncate] (high as u8))
}

/// A PhotonFeeder protocol packet.
#[derive(Debug, Clone)]
pub struct Packet {
    pub to_address: u8,
    pub from_address: u8,
    pub packet_id: u8,
    pub payload: Vec<u8>,
}

/// The mathematical content of a packet.
pub struct PacketView {
    pub to_address: u8,
    pub from_address: u8,
    pub packet_id: u8,
    pub payload: Seq<u8>,
}

impl View for Packet {
    type V = PacketView;

    open spec fn view(&self) -> PacketView {
        PacketView {
            to_address: self.to_address,
            from_address: self.from_address,
            packet_id: self.packet_id,
            payload: self.payload@,
        }
    }
}

/// The four header bytes that the checksum covers before the payload; the length
/// byte is the payload length truncated to a byte.
pub open spec fn spec_header(p: PacketView) -> Seq<u8> {
    seq![p.to_address, p.from_address, p.packet_id, (p.payload.len() % 256) as u8]
}

/// The checksum of a packet: CRC8-107 over the header and the payload.
pub open spec fn spec_packet_crc(p: PacketView) -> u8 {
    spec_crc8_107(spec_header(p) + p.payload)
}

/// The bytes of a packet on the wire.
pub open spec fn spec_wire(p: PacketView) -> Seq<u8> {
    spec_header(p) + seq![spec_packet_crc(p)] + p.payload
}

/// The hexadecimal text of a packet.
pub open spec fn spec_encode(p: PacketView) -> Seq<char> {
    spec_hex(spec_wire(p))
}

/// Value of a hexadecimal digit byte (`0-9`, `a-f`, `A-F`).
pub open spec fn hex_value(b: u8) -> Option<u8> {
    if 48 <= b <= 57 {
        Some((b - 48) as u8)
    } else if 65 <= b <= 70 {
        Some((b - 55) as u8)
    } else if 97 <= b <= 102 {
        Some((b - 87) as u8)
    } else {
        None
    }
}

/// Value of a two-byte field: both bytes must be hexadecimal digits, the
/// first the high nibble.
pub open spec fn pair_value(b0: u8, b1: u8) -> Option<u8> {
    match (hex_value(b0), hex_value(b1)) {
        (Some(h), Some(l)) => Some((h * 16 + l) as u8),
        _ => None,
    }
}

pub open spec fn pair_at(h: Seq<u8>, k: int) -> Option<u8> {
    pair_value(h[2 * k], h[2 * k + 1])
}

/// The first `n` two-byte fields of `h` are valid.
pub open spec fn pairs_valid(h: Seq<u8>, n: int) -> bool {
    forall|k: int| 0 <= k < n ==> (#[trigger] pair_at(h, k)) is Some
}

/// Bytes that hexadecimal text stands for, when every pair is valid.
pub open spec fn spec_hex_to_bytes(h: Seq<u8>) -> Option<Seq<u8>> {
    if h.len() % 2 != 0 {
        None
    } else if pairs_valid(h, (h.len() / 2) as int) {
        Some(Seq::new(h.len() / 2, |k: int| pair_at(h, k).unwrap()))
    } else {
        None
    }
}

/// What decoding hexadecimal text gives: `None` for odd or short text, invalid
/// hex, a payload length that disagrees with the header, or a bad checksum.
pub open spec fn spec_decode(h: Seq<u8>) -> Option<PacketView> {
    if h.len() % 2 != 0 || h.len() < 10 {
        None
    } else {
        match spec_hex_to_bytes(h) {
            None => None,
            Some(b) => {
                let p = PacketView {
                    to_address: b[0],
                    from_address: b[1],
                    packet_id: b[2],
                    payload: b.subrange(5, b.len() as int),
                };
                if p.payload.len() != b[3] as nat {
                    None
                } else if spec_packet_crc(p) != b[4] {
                    None
                } else {
                    Some(p)
                }
            },
        }
    }
}

pub fn hex_value_of(b: u8) -> (r: Option<u8>)
    ensures
        r == hex_value(b),
{
    if 48 <= b && b <= 57 {
        Some(b - 48)
    } else if 65 <= b && b <= 70 {
        Some(b - 55)
    } else if 97 <= b && b <= 102 {
        Some(b - 87)
    } else {
        None
    }
}

pub fn pair_value_of(b0: u8, b1: u8) -> (r: Option<u8>)
    ensures
        r == pair_value(b0, b1),
{
    match (hex_value_of(b0), hex_value_of(b1)) {
        (Some(h), Some(l)) => Some(h * 16 + l),
        _ => None,
    }
}

/// Bytes of hexadecimal text; `None` for odd length or an invalid pair.
pub fn hex_to_bytes(hex: &str) -> (r: Option<Vec<u8>>)
    ensures
        match r {
            Some(v) => spec_hex_to_bytes(hex.spec_bytes()) == Some(v@),
            None => spec_hex_to_bytes(hex.spec_bytes()) is None,
        },
{
    let h = hex.as_bytes();
    let n = h.len();
    if n % 2 != 0 {
        return None;
    }
    let mut out: Vec<u8> = Vec::new();
    let mut k: usize = 0;
    while k < n / 2
        invariant
            n == h@.len(),
            n % 2 == 0,
            h@ == hex.spec_bytes(),
            k <= n / 2,
            pairs_valid(h@, k as int),
            out@ =~= Seq::new(k as nat, |j: int| pair_at(h@, j).unwrap()),
        decreases n / 2 - k,
    {
        match pair_value_of(h[2 * k], h[2 * k + 1]) {
            Some(v) => {
                out.push(v);
            },
            None => {
                assert(pair_at(h@, k as int) is None);
                assert(!pairs_valid(h@, (n / 2) as int));
                return None;
            },
        }
        k += 1;
    }
    Some(out)
}

proof fn lemma_hex_digit(v: nat)
    requires
        v < 16,
    ensures
        '\0' <= spec_hex_digit(v) <= '\u{7f}',
        hex_value(spec_hex_digit(v) as u8) == Some(v as u8),
{
}

/// Decoding the text of a packet gives the packet back, whenever its payload
/// fits the one-byte length field.
#[verifier::spinoff_prover]
#[verifier::rlimit(60)]
pub proof fn lemma_decode_encode(p: PacketView)
    requires
        p.payload.len() < 256,
    ensures
        spec_decode(encode_utf8(spec_encode(p))) == Some(p),
{
    let w = spec_wire(p);
    let cs = spec_encode(p);
    assert(cs.len() == 2 * w.len());
    assert forall|i: int| 0 <= i < cs.len() implies '\0' <= #[trigger] cs[i] <= '\u{7f}' by {
        if i % 2 == 0 {
            lemma_hex_digit((w[i / 2] / 16) as nat);
        } else {
            lemma_hex_digit((w[i / 2] % 16) as nat);
        }
    }
    assert(is_ascii_chars(cs));
    is_ascii_chars_encode_utf8(cs);
    let h = encode_utf8(cs);
    assert forall|k: int| 0 <= k < w.len() implies #[trigger] pair_at(h, k) == Some(w[k]) by {
        let hi = (w[k] / 16) as nat;
        let lo = (w[k] % 16) as nat;
        assert(h[2 * k] == cs[2 * k] as u8);
        assert(h[2 * k + 1] == cs[2 * k + 1] as u8);
        assert((2 * k) / 2 == k);
        assert((2 * k + 1) / 2 == k);
        assert(cs[2 * k] == spec_hex_digit(hi));
        assert(cs[2 * k + 1] == spec_hex_digit(lo));
        lemma_hex_digit(hi);
        lemma_hex_digit(lo);
    }
    assert(h.len() == 2 * w.len());
    assert(pairs_valid(h, (h.len() / 2) as int));
    assert(spec_hex_to_bytes(h) == Some(w)) by {
        assert(Seq::new(h.len() / 2, |k: int| pair_at(h, k).unwrap()) =~= w);
    }
    let q = PacketView {
        to_address: w[0],
        from_address: w[1],
        packet_id: w[2],
        payload: w.subrange(5, w.len() as int),
    };
    assert(q.payload =~= p.payload);
    assert(q == p);
}

impl Packet {
    pub fn new(to_address: u8, command_id: u8) -> (p: Self)
        ensures
            p@ == (PacketView {
                to_address,
                from_address: 0,
                packet_id: 0,
                payload: seq![command_id],
            }),
    {
        let mut payload: Vec<u8> = Vec::new();
        payload.push(command_id);
        Packet { to_address, from_address: 0, packet_id: 0, payload }
    }

    fn calculate_crc(&self) -> (r: u8)
        ensures
            r == spec_packet_crc(self@),
    {
        let payload_len = (self.payload.len() % 256) as u8;
        let mut data: Vec<u8> = Vec::new();
        data.push(self.to_address);
        data.push(self.from_address);
        data.push(self.packet_id);
        data.push(payload_len);
        let mut i: usize = 0;
        while i < self.payload.len()
            invariant
                i <= self.payload@.len(),
                data@ =~= spec_header(self@) + self.payload@.subrange(0, i as int),
            decreases self.payload@.len() - i,
        {
            data.push(self.payload[i]);
            i += 1;
        }
        assert(self.payload@.subrange(0, self.payload@.len() as int) =~= self.payload@);
        crc8_107(data.as_slice())
    }

    /// Encode the packet to a hex string for M485 transport.
    pub fn encode(&self) -> (s: String)
        ensures
            s@ == spec_encode(self@),
    {
        let crc = self.calculate_crc();
        let payload_len = (self.payload.len() % 256) as u8;
        let mut wire: Vec<u8> = Vec::new();
        wire.push(self.to_address);
        wire.push(self.from_address);
        wire.push(self.packet_id);
        wire.push(payload_len);
        wire.push(crc);
        let mut i: usize = 0;
        while i < self.payload.len()
            invariant
                i <= self.payload@.len(),
                wire@ =~= spec_header(self@) + seq![spec_packet_crc(self@)]
                    + self.payload@.subrange(0, i as int),
            decreases self.payload@.len() - i,
        {
            wire.push(self.payload[i]);
            i += 1;
        }
        assert(self.payload@.subrange(0, self.payload@.len() as int) =~= self.payload@);
        let mut out: Vec<char> = Vec::new();
        push_hex(&mut out, wire.as_slice());
        assert(out@ =~= spec_encode(self@));
        string_from_chars(out.as_slice())
    }

    /// Decode a packet from a hex string. Returns None if invalid.
    pub fn decode(hex: &str) -> (r: Option<Self>)
        ensures
            match r {
                Some(p) => spec_decode(hex.spec_bytes()) == Some(p@),
                None => spec_decode(hex.spec_bytes()) is None,
            },
    {
        let len = hex.len();
        if len % 2 != 0 || len < 10 {
            return None;
        }
        let bytes = match hex_to_bytes(hex) {
            Some(b) => b,
            None => return None,
        };
        let to_address = bytes[0];
        let from_address = bytes[1];
        let packet_id = bytes[2];
        let payload_len = bytes[3] as usize;
        let expected_crc = bytes[4];
        let mut payload: Vec<u8> = Vec::new();
        let mut i: usize = 5;
        while i < bytes.len()
            invariant
                5 <= i <= bytes@.len(),
                payload@ =~= bytes@.subrange(5, i as int),
            decreases bytes@.len() - i,
        {
            payload.push(bytes[i]);
            i += 1;
        }
        if payload.len() != payload_len {
            return None;
        }
        let packet = Packet { to_address, from_address, packet_id, payload };
        if packet.calculate_crc() != expected_crc {
            return None;
        }
        Some(packet)
    }

    /// Extract a 12-byte UUID as hex string from the payload at the given offset.
    pub fn uuid(&self, start: usize) -> (r: Option<String>)
        requires
            start <= usize::MAX - 12,
        ensures
            match r {
                Some(s) => start + 12 <= self.payload@.len() && s@ == spec_hex(
                    self.payload@.subrange(start as int, start + 12),
                ),
                None => start + 12 > self.payload@.len(),
            },
    {
        if start + 12 > self.payload.len() {
            return None;
        }
        let mut field: Vec<u8> = Vec::new();
        let mut i = start;
        while i < start + 12
            invariant
                start <= usize::MAX - 12,
                start <= i <= start + 12 <= self.payload@.len(),
                field@ =~= self.payload@.subrange(start as int, i as int),
            decreases start + 12 - i,
        {
            field.push(self.payload[i]);
            i += 1;
        }
        let mut out: Vec<char> = Vec::new();
        push_hex(&mut out, field.as_slice());
        assert(out@ =~= spec_hex(self.payload@.subrange(start as int, start + 12)));
        Some(string_from_chars(out.as_slice()))
    }

    /// Extract a big-endian u16 from the payload at the given offset.
    pub fn uint16(&self, start: usize) -> (r: Option<u16>)
        requires
            start <= usize::MAX - 2,
        ensures
            match r {
                Some(v) => start + 2 <= self.payload@.len() && v == self.payload@[start as int]
                    * 256 + self.payload@[start + 1],
                None => start + 2 > self.payload@.len(),
            },
    {
        if start + 2 > self.payload.len() {
            return None;
        }
        let hi = self.payload[start] as u16;
        let lo = self.payload[start + 1] as u16;
        Some(hi * 256 + lo)
    }

    /// Push a byte to the payload.
    pub fn push_byte(&mut self, b: u8)
        ensures
            final(self)@ == (PacketView { payload: old(self)@.payload.push(b), ..old(self)@ }),
    {
        self.payload.push(b);
    }

    /// Push a 12-byte UUID (24 hex chars) to the payload; text that is not
    /// valid hexadecimal leaves the payload unchanged.
    pub fn push_uuid(&mut self, uuid: &str)
        ensures
            final(self)@ == (PacketView {
                payload: match spec_hex_to_bytes(uuid.spec_bytes()) {
                    Some(b) => old(self)@.payload + b,
                    None => old(self)@.payload,
                },
                ..old(self)@
            }),
    {
        if let Some(bytes) = hex_to_bytes(uuid) {
            let mut i: usize = 0;
            let ghost start = self.payload@;
            while i < bytes.len()
                invariant
                    i <= bytes@.len(),
                    self.to_address == old(self).to_address,
                    self.from_address == old(self).from_address,
                    self.packet_id == old(self).packet_id,
                    start == old(self).payload@,
                    self.payload@ =~= start + bytes@.subrange(0, i as int),
                decreases bytes@.len() - i,
            {
                self.payload.push(bytes[i]);
                i += 1;
            }
            assert(bytes@.subrange(0, bytes@.len() as int) =~= bytes@);
        }
    }
}

} // verus!
