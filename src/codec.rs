use vstd::prelude::*;
use mqtt3::{MqttRead, MqttWrite};

verus! {

/// The CONNACK return code that refuses a client as not authorized.
pub const NOT_AUTHORIZED: u8 = 5;

/// The largest CONNACK return code the protocol defines.
pub const MAX_RETURN_CODE: u8 = 5;

/// The broker's acknowledgement of a CONNECT.
#[derive(Clone, Copy, Debug, PartialEq, Eq, Structural)]
pub struct ConnAck {
    pub session_present: bool,
    pub return_code: u8,
}

/// What the broker logic reads of a decoded packet.
#[derive(Clone, Copy, Debug, PartialEq, Eq, Structural)]
pub enum Packet {
    Connect,
    ConnAck(ConnAck),
    PingReq,
    Other,
}

/// Whether the bytes at the front of a stream make up one whole packet.
#[derive(Clone, Copy, Debug, PartialEq, Eq, Structural)]
pub enum Frame {
    /// More bytes are needed before the packet's extent is known or reached.
    Incomplete,
    /// The first `n` bytes are one whole packet.
    Complete(usize),
    /// The remaining-length field runs past its four bytes.
    Malformed,
}

/// The framing of `s` once `k` remaining-length bytes have been read,
/// contributing `value`, the next one weighing `mult`.
pub open spec fn scan_length(s: Seq<u8>, k: nat, value: nat, mult: nat) -> Frame
    decreases 4 - k,
{
    if k >= 4 {
        Frame::Malformed
    } else if s.len() <= 1 + k {
        Frame::Incomplete
    } else {
        let b = s[1 + k as int];
        let v = value + (b % 128) as nat * mult;
        if b >= 128 {
            scan_length(s, k + 1, v, mult * 128)
        } else if s.len() >= 2 + k + v {
            Frame::Complete((2 + k + v) as usize)
        } else {
            Frame::Incomplete
        }
    }
}

/// An MQTT packet is a header byte, a remaining length of one to four bytes
/// (seven bits each, least significant first, the high bit marking that
/// another follows), and that many bytes more.
pub open spec fn frame_of(s: Seq<u8>) -> Frame {
    if s.len() == 0 {
        Frame::Incomplete
    } else {
        scan_length(s, 0, 0, 1)
    }
}

/// The packet that the codec reads from the bytes of one whole frame, if it
/// accepts them.
pub uninterp spec fn packet_of(frame: Seq<u8>) -> Option<Packet>;

/// A PUBLISH whose header claims the reserved quality of service 3.
pub open spec fn reserved_qos_publish(frame: Seq<u8>) -> bool {
    frame.len() > 0 && frame[0] / 16 == 3 && frame[0] % 8 >= 6
}

/// The four bytes of an encoded CONNACK.
pub open spec fn connack_bytes(ack: ConnAck) -> Seq<u8> {
    seq![0x20u8, 0x02u8, if ack.session_present { 1u8 } else { 0u8 }, ack.return_code]
}

/// Finds the extent of the packet at the front of `s`.
pub fn frame_length(s: &[u8]) -> (r: Frame)
    ensures
        r == frame_of(s@),
{
    if s.len() == 0 {
        return Frame::Incomplete;
    }
    let mut k: usize = 0;
    let mut value: usize = 0;
    let mut mult: usize = 1;
    while k < 4
        invariant
            s@.len() > 0,
            k <= 4,
            mult == pow128(k as nat),
            value < mult,
            frame_of(s@) == scan_length(s@, k as nat, value as nat, mult as nat),
        decreases 4 - k,
    {
        proof { lemma_pow128_bound(k as nat); }
        if s.len() <= 1 + k {
            return Frame::Incomplete;
        }
        let b = s[1 + k];
        proof {
            let d = (b % 128) as int;
            assert(value + d * mult < mult * 128) by (nonlinear_arith)
                requires value < mult, 0 <= d <= 127;
            assert(mult * 128 <= 268435456) by (nonlinear_arith)
                requires mult <= 2097152;
        }
        let v = value + (b % 128) as usize * mult;
        if b >= 128 {
            value = v;
            mult = mult * 128;
            k = k + 1;
        } else if s.len() >= 2 + k + v {
            return Frame::Complete(2 + k + v);
        } else {
            return Frame::Incomplete;
        }
    }
    Frame::Malformed
}

pub open spec fn pow128(k: nat) -> nat
    decreases k,
{
    if k == 0 { 1 } else { 128 * pow128((k - 1) as nat) }
}

proof fn lemma_pow128_bound(k: nat)
    requires
        k < 4,
    ensures
        pow128(k) <= 2097152,
        pow128(k + 1) == pow128(k) * 128,
{
    reveal_with_fuel(pow128, 5);
}

proof fn lemma_scan_extends(s: Seq<u8>, t: Seq<u8>, k: nat, value: nat, mult: nat)
    requires
        s.len() > 0,
        scan_length(s, k, value, mult) != Frame::Incomplete,
    ensures
        scan_length(s + t, k, value, mult) == scan_length(s, k, value, mult),
    decreases 4 - k,
{
    if k < 4 && s.len() > 1 + k {
        let b = s[1 + k as int];
        assert((s + t)[1 + k as int] == b);
        if b >= 128 {
            lemma_scan_extends(s, t, k + 1, value + (b % 128) as nat * mult, mult * 128);
        }
    }
}

/// Once the front of a stream is known to hold a whole packet (or a malformed
/// length), bytes arriving later change neither that verdict nor the packet's
/// bytes: however a stream is split into reads, its packets are cut out at
/// the same places, in the order the bytes arrived.
pub proof fn lemma_frame_stable_under_extension(s: Seq<u8>, t: Seq<u8>)
    requires
        frame_of(s) != Frame::Incomplete,
    ensures
        frame_of(s + t) == frame_of(s),
        frame_of(s) matches Frame::Complete(n) ==> (s + t).subrange(0, n as int) == s.subrange(0, n as int),
{
    lemma_scan_extends(s, t, 0, 0, 1);
    if let Frame::Complete(n) = frame_of(s) {
        reveal_with_fuel(pow128, 1);
        lemma_scan_complete_within(s, 0, 0, 1);
        assert((s + t).subrange(0, n as int) =~= s.subrange(0, n as int));
    }
}

proof fn lemma_scan_complete_within(s: Seq<u8>, k: nat, value: nat, mult: nat)
    requires
        k <= 4,
        mult == pow128(k),
        value < mult,
    ensures
        scan_length(s, k, value, mult) matches Frame::Complete(n) ==> 0 < n <= s.len(),
    decreases 4 - k,
{
    if k < 4 && s.len() > 1 + k {
        let b = s[1 + k as int];
        let d = (b % 128) as int;
        lemma_pow128_bound(k);
        assert(value + d * mult < mult * 128) by (nonlinear_arith)
            requires value < mult, 0 <= d <= 127;
        if b >= 128 {
            lemma_scan_complete_within(s, k + 1, value + (b % 128) as nat * mult, mult * 128);
        }
    }
}

/// Relies on mqtt3's `MqttRead::read_packet` over an in-memory cursor: the
/// packet read from one whole frame, or `None` where the codec rejects it.
#[verifier::external_body]
fn read_frame(frame: &[u8]) -> (r: Option<Packet>)
    requires
        !reserved_qos_publish(frame@),
    ensures
        r == packet_of(frame@),
{
    match std::io::Cursor::new(frame.to_vec()).read_packet() {
        Ok(mqtt3::Packet::Connect(_)) => Some(Packet::Connect),
        Ok(mqtt3::Packet::Connack(c)) => Some(Packet::ConnAck(ConnAck { session_present: c.session_present, return_code: c.code.to_u8() })),
        Ok(mqtt3::Packet::Pingreq) => Some(Packet::PingReq),
        Ok(_) => Some(Packet::Other),
        Err(_) => None,
    }
}

/// Decodes one whole frame. A PUBLISH with the reserved quality of service is
/// malformed and never reaches the codec.
pub fn decode_frame(frame: &[u8]) -> (r: Option<Packet>)
    ensures
        reserved_qos_publish(frame@) ==> r is None,
        !reserved_qos_publish(frame@) ==> r == packet_of(frame@),
{
    if frame.len() > 0 && frame[0] / 16 == 3 && frame[0] % 8 >= 6 {
        None
    } else {
        read_frame(frame)
    }
}

/// Relies on mqtt3's `MqttWrite::write_packet` for a CONNACK, which writes
/// the fixed header, the session-present flag and the return code.
#[verifier::external_body]
fn write_connack(ack: ConnAck) -> (r: Vec<u8>)
    requires
        ack.return_code <= MAX_RETURN_CODE,
    ensures
        r@ == connack_bytes(ack),
{
    let code = mqtt3::ConnectReturnCode::from_u8(ack.return_code).unwrap();
    let mut cursor = std::io::Cursor::new(Vec::new());
    cursor.write_packet(&mqtt3::Packet::Connack(mqtt3::Connack { session_present: ack.session_present, code })).unwrap();
    cursor.into_inner()
}

/// Appends the encoding of a CONNACK to `buf`.
pub fn encode_connack(ack: ConnAck, buf: &mut crate::buffer::Buffer)
    requires
        ack.return_code <= MAX_RETURN_CODE,
    ensures
        final(buf)@ == old(buf)@ + connack_bytes(ack),
{
    let bytes = write_connack(ack);
    buf.extend(bytes.as_slice());
}

/// An encoded CONNACK is one whole frame on its own, and stays so whatever
/// follows it in the stream.
pub proof fn lemma_connack_is_one_frame(ack: ConnAck, rest: Seq<u8>)
    ensures
        frame_of(connack_bytes(ack)) == Frame::Complete(4),
        frame_of(connack_bytes(ack) + rest) == Frame::Complete(4),
{
    let s = connack_bytes(ack);
    reveal_with_fuel(scan_length, 2);
    assert(s[1] == 2u8);
    lemma_frame_stable_under_extension(s, rest);
}

proof fn lemma_scan_prefix(s: Seq<u8>, m: nat, k: nat, value: nat, mult: nat)
    requires
        k <= 4,
        mult == pow128(k),
        value < mult,
        scan_length(s, k, value, mult) is Complete,
        (scan_length(s, k, value, mult)->Complete_0 as nat) <= m <= s.len(),
    ensures
        scan_length(s.subrange(0, m as int), k, value, mult) == scan_length(s, k, value, mult),
        scan_length(s, k, value, mult)->Complete_0 >= 2 + k,
    decreases 4 - k,
{
    let b = s[1 + k as int];
    let d = (b % 128) as int;
    lemma_pow128_bound(k);
    assert(value + d * mult < mult * 128) by (nonlinear_arith)
        requires value < mult, 0 <= d <= 127;
    assert(mult * 128 <= 268435456) by (nonlinear_arith)
        requires mult <= 2097152;
    if b >= 128 {
        lemma_scan_prefix(s, m, k + 1, value + (b % 128) as nat * mult, mult * 128);
    }
    assert(s.subrange(0, m as int)[1 + k as int] == b);
}

/// Where the front of `s` holds a whole packet, it lies within `s`.
pub proof fn lemma_frame_within(s: Seq<u8>)
    ensures
        frame_of(s) matches Frame::Complete(n) ==> 0 < n <= s.len(),
{
    if s.len() > 0 {
        reveal_with_fuel(pow128, 1);
        lemma_scan_complete_within(s, 0, 0, 1);
    }
}

/// The whole packet at the front of `s`, cut off on its own, is one whole
/// packet still.
pub proof fn lemma_whole_frame(s: Seq<u8>, n: usize)
    requires
        frame_of(s) == Frame::Complete(n),
    ensures
        frame_of(s.subrange(0, n as int)) == Frame::Complete(n),
{
    lemma_frame_within(s);
    reveal_with_fuel(pow128, 1);
    lemma_scan_prefix(s, n as nat, 0, 0, 1);
}

} // verus!
