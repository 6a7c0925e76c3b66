//! The mathematical model of the MQTT 3.1.1 wire format.
//!
//! Every contract in the crate is stated against the spec functions here:
//! [`wire`] gives the exact byte encoding of a packet, [`varint_rec`] gives
//! the result of reading a Remaining Length field, and [`decode_front`]
//! classifies the front of a byte buffer as an incomplete, malformed, or
//! complete packet frame.  The lemmas at the end tie the two directions
//! together: a packet's encoding always frames as itself, and any strict
//! prefix of it is incomplete.

use vstd::prelude::*;
use vstd::arithmetic::div_mod::lemma_fundamental_div_mod;
use vstd::utf8::encode_utf8;

use crate::connect::{Connack, Connect, Protocol};
use crate::packet::{Packet, PacketType};
use crate::publish::Publish;
use crate::subscribe::{Suback, Subscribe, SubscribeReturnCodes, SubscribeTopic, Unsubscribe};
use crate::utils::{Error, Pid, QosPid};

verus! {

/// Largest value a Remaining Length field can carry: four 7-bit groups.
pub const MAX_REMAINING_LENGTH: usize = 268435455;

/// Largest byte count a 2-byte length prefix can announce.
pub const MAX_PREFIXED_LENGTH: usize = 65535;

// ---------------------------------------------------------------------------
// Remaining Length: the 1-4 byte variable-length integer.
// ---------------------------------------------------------------------------

/// 128 raised to the power `k` (1 for any `k <= 0`).
pub open spec fn pow128(k: int) -> int
    decreases k,
{
    if k <= 0 {
        1
    } else {
        128 * pow128(k - 1)
    }
}

/// Wire bytes of a Remaining Length value: 7 value bits per byte, least
/// significant group first, continuation bit set on every byte but the last.
pub open spec fn varint(n: int) -> Seq<u8>
    recommends
        0 <= n,
    decreases n,
{
    if n < 128 {
        seq![n as u8]
    } else {
        seq![((n % 128) + 128) as u8] + varint(n / 128)
    }
}

/// Outcome of reading a Remaining Length field from a buffer.
pub enum LenParse {
    /// The buffer ran out before a byte with a clear continuation bit.
    Partial,
    /// A fourth byte still had its continuation bit set.
    Overflow,
    /// The decoded value, and the index just past its last byte.
    Done { len: int, end: int },
}

/// Reads a Remaining Length field from `s` starting at `pos`, with `count`
/// bytes already consumed and `acc` their accumulated value.  Top-level
/// reads start with `count == 0` and `acc == 0`.
pub open spec fn varint_rec(s: Seq<u8>, pos: int, count: int, acc: int) -> LenParse
    decreases 4 - count,
{
    if count > 3 {
        LenParse::Overflow
    } else if pos < 0 || pos >= s.len() {
        LenParse::Partial
    } else {
        let b = s[pos];
        let acc2 = acc + (b % 128) * pow128(count);
        if b < 128 {
            LenParse::Done { len: acc2, end: pos + 1 }
        } else if count >= 3 {
            LenParse::Overflow
        } else {
            varint_rec(s, pos + 1, count + 1, acc2)
        }
    }
}

// ---------------------------------------------------------------------------
// Primitive field encodings.
// ---------------------------------------------------------------------------

/// A 16-bit value as two big-endian bytes.
pub open spec fn len16(n: int) -> Seq<u8>
    recommends
        0 <= n <= 65535,
{
    seq![(n / 256) as u8, (n % 256) as u8]
}

/// The 16-bit value of two big-endian bytes.
pub open spec fn be16(hi: u8, lo: u8) -> int {
    hi * 256 + lo
}

/// A packet identifier: two big-endian bytes.
pub open spec fn pid_bytes(p: Pid) -> Seq<u8> {
    len16(p.spec_value() as int)
}

/// The identifier bytes a Publish carries: none at quality of service 0.
pub open spec fn qospid_bytes(qp: QosPid) -> Seq<u8> {
    match qp {
        QosPid::AtMostOnce => Seq::<u8>::empty(),
        QosPid::AtLeastOnce(p) => pid_bytes(p),
        QosPid::ExactlyOnce(p) => pid_bytes(p),
    }
}

/// A length-prefixed UTF-8 string: 2-byte big-endian byte count, then the
/// character sequence's UTF-8 bytes.
pub open spec fn str_bytes(s: Seq<char>) -> Seq<u8> {
    len16(encode_utf8(s).len() as int) + encode_utf8(s)
}

/// A length-prefixed binary field: 2-byte big-endian byte count, then the
/// bytes themselves.
pub open spec fn bin_bytes(b: Seq<u8>) -> Seq<u8> {
    len16(b.len() as int) + b
}

/// A string fits its 2-byte length prefix.
pub open spec fn valid_string(s: Seq<char>) -> bool {
    encode_utf8(s).len() <= 65535
}

/// A binary field fits its 2-byte length prefix.
pub open spec fn valid_bin(b: Seq<u8>) -> bool {
    b.len() <= 65535
}

// ---------------------------------------------------------------------------
// Per-type payload encodings.
// ---------------------------------------------------------------------------

/// The protocol name and level that open a Connect payload.
pub open spec fn protocol_bytes(p: Protocol) -> Seq<u8> {
    match p {
        Protocol::MQIsdp => seq![0u8, 6u8, 77u8, 81u8, 73u8, 115u8, 100u8, 112u8, 3u8],
        Protocol::MQTT311 => seq![0u8, 4u8, 77u8, 81u8, 84u8, 84u8, 4u8],
    }
}

/// The Connect flag byte: username bit 7, password bit 6, will-retain bit 5,
/// will quality of service bits 4-3, will flag bit 2, clean-session bit 1.
pub open spec fn connect_flags(c: Connect) -> int {
    (if c.username is Some {
        128int
    } else {
        0int
    }) + (if c.password is Some {
        64int
    } else {
        0int
    }) + (match c.last_will {
        Some(w) => 4 + 8 * w.qos.as_u8() + (if w.retain {
            32int
        } else {
            0int
        }),
        None => 0int,
    }) + (if c.clean_session {
        2int
    } else {
        0int
    })
}

/// Body of a Connect packet.
pub open spec fn connect_body(c: Connect) -> Seq<u8> {
    protocol_bytes(c.protocol) + seq![connect_flags(c) as u8] + len16(c.keep_alive as int)
        + str_bytes(c.client_id@) + (match c.last_will {
        Some(w) => str_bytes(w.topic@) + bin_bytes(w.message@),
        None => Seq::<u8>::empty(),
    }) + (match c.username {
        Some(u) => str_bytes(u@),
        None => Seq::<u8>::empty(),
    }) + (match c.password {
        Some(p) => bin_bytes(p@),
        None => Seq::<u8>::empty(),
    })
}

/// Body of a Connack packet: acknowledge-flags byte, then the return code.
pub open spec fn connack_body(c: Connack) -> Seq<u8> {
    seq![
        (if c.session_present {
            1u8
        } else {
            0u8
        }),
        c.code.as_u8(),
    ]
}

/// Body of a Publish packet: topic, identifier when owed, then the raw
/// payload running to the packet's declared end.
pub open spec fn publish_body(p: Publish) -> Seq<u8> {
    str_bytes(p.topic_name@) + qospid_bytes(p.qospid) + p.payload@
}

/// One Subscribe entry: topic filter, then the requested level's byte.
pub open spec fn topic_bytes(t: SubscribeTopic) -> Seq<u8> {
    str_bytes(t.topic_path@) + seq![t.qos.as_u8()]
}

/// A Subscribe packet's entries, in order.
pub open spec fn topics_bytes(ts: Seq<SubscribeTopic>) -> Seq<u8>
    decreases ts.len(),
{
    if ts.len() == 0 {
        Seq::<u8>::empty()
    } else {
        topic_bytes(ts[0]) + topics_bytes(ts.skip(1))
    }
}

/// The byte of one Suback return code: 0x80 for failure, else the granted
/// level's byte.
pub open spec fn rc_byte(rc: SubscribeReturnCodes) -> u8 {
    match rc {
        SubscribeReturnCodes::Failure => 0x80,
        SubscribeReturnCodes::Success(q) => q.as_u8(),
    }
}

/// A Suback packet's return codes, one byte each, in order.
pub open spec fn codes_bytes(rcs: Seq<SubscribeReturnCodes>) -> Seq<u8> {
    Seq::new(rcs.len(), |i: int| rc_byte(rcs[i]))
}

/// An Unsubscribe packet's topic filters, in order.
pub open spec fn filters_bytes(fs: Seq<Seq<char>>) -> Seq<u8>
    decreases fs.len(),
{
    if fs.len() == 0 {
        Seq::<u8>::empty()
    } else {
        str_bytes(fs[0]) + filters_bytes(fs.skip(1))
    }
}

// ---------------------------------------------------------------------------
// Whole packets.
// ---------------------------------------------------------------------------

/// The flags nibble of a Publish header: dup bit 3, quality of service bits
/// 2-1, retain bit 0.
pub open spec fn publish_flags(p: Publish) -> int {
    (if p.dup {
        8int
    } else {
        0int
    }) + 2 * p.qospid.spec_qos().as_u8() + (if p.retain {
        1int
    } else {
        0int
    })
}

/// First byte of a packet's fixed header: type nibble plus flags nibble.
pub open spec fn head_byte(p: Packet) -> u8 {
    match p {
        Packet::Connect(_) => 0x10,
        Packet::Connack(_) => 0x20,
        Packet::Publish(pb) => (0x30 + publish_flags(pb)) as u8,
        Packet::Puback(_) => 0x40,
        Packet::Pubrec(_) => 0x50,
        Packet::Pubrel(_) => 0x62,
        Packet::Pubcomp(_) => 0x70,
        Packet::Subscribe(_) => 0x82,
        Packet::Suback(_) => 0x90,
        Packet::Unsubscribe(_) => 0xA2,
        Packet::Unsuback(_) => 0xB0,
        Packet::Pingreq => 0xC0,
        Packet::Pingresp => 0xD0,
        Packet::Disconnect => 0xE0,
    }
}

/// Everything after a packet's fixed header.
pub open spec fn wire_body(p: Packet) -> Seq<u8> {
    match p {
        Packet::Connect(c) => connect_body(c),
        Packet::Connack(c) => connack_body(c),
        Packet::Publish(pb) => publish_body(pb),
        Packet::Puback(pid) => pid_bytes(pid),
        Packet::Pubrec(pid) => pid_bytes(pid),
        Packet::Pubrel(pid) => pid_bytes(pid),
        Packet::Pubcomp(pid) => pid_bytes(pid),
        Packet::Subscribe(s) => pid_bytes(s.pid) + topics_bytes(s.topics@),
        Packet::Suback(s) => pid_bytes(s.pid) + codes_bytes(s.return_codes@),
        Packet::Unsubscribe(u) => pid_bytes(u.pid) + filters_bytes(u.topics.deep_view()),
        Packet::Unsuback(pid) => pid_bytes(pid),
        Packet::Pingreq => Seq::<u8>::empty(),
        Packet::Pingresp => Seq::<u8>::empty(),
        Packet::Disconnect => Seq::<u8>::empty(),
    }
}

/// The complete wire encoding of a packet: type/flags byte, Remaining
/// Length, body.
pub open spec fn wire(p: Packet) -> Seq<u8> {
    seq![head_byte(p)] + varint(wire_body(p).len() as int) + wire_body(p)
}

/// Every string and binary field of the packet fits its 2-byte length
/// prefix, and the body fits a Remaining Length field.  This is exactly the
/// condition under which `encode` succeeds.
pub open spec fn encodable(p: Packet) -> bool {
    wire_body(p).len() <= MAX_REMAINING_LENGTH && match p {
        Packet::Connect(c) => valid_string(c.client_id@) && (match c.last_will {
            Some(w) => valid_string(w.topic@) && valid_bin(w.message@),
            None => true,
        }) && (match c.username {
            Some(u) => valid_string(u@),
            None => true,
        }) && (match c.password {
            Some(pw) => valid_bin(pw@),
            None => true,
        }),
        Packet::Publish(pb) => valid_string(pb.topic_name@),
        Packet::Subscribe(s) => forall|i: int|
            0 <= i < s.topics@.len() ==> valid_string(s.topics@[i].topic_path@),
        Packet::Unsubscribe(u) => forall|i: int|
            0 <= i < u.topics@.len() ==> valid_string(u.topics@[i]@),
        _ => true,
    }
}

/// Every packet identifier the packet carries is non-zero.  This always
/// holds of a reachable [`Pid`] value; it is spelled out so that contracts
/// can quantify over arbitrary packet values.
pub open spec fn pids_ok(p: Packet) -> bool {
    match p {
        Packet::Publish(pb) => match pb.qospid {
            QosPid::AtMostOnce => true,
            QosPid::AtLeastOnce(pid) => pid.spec_value() != 0,
            QosPid::ExactlyOnce(pid) => pid.spec_value() != 0,
        },
        Packet::Puback(pid) => pid.spec_value() != 0,
        Packet::Pubrec(pid) => pid.spec_value() != 0,
        Packet::Pubrel(pid) => pid.spec_value() != 0,
        Packet::Pubcomp(pid) => pid.spec_value() != 0,
        Packet::Subscribe(s) => s.pid.spec_value() != 0,
        Packet::Suback(s) => s.pid.spec_value() != 0,
        Packet::Unsubscribe(u) => u.pid.spec_value() != 0,
        Packet::Unsuback(pid) => pid.spec_value() != 0,
        _ => true,
    }
}

/// A packet whose encoding decodes back to itself: encodable, with no
/// reserved zero identifier.
pub open spec fn valid_packet(p: Packet) -> bool {
    encodable(p) && pids_ok(p)
}

// ---------------------------------------------------------------------------
// Framing the front of a buffer.
// ---------------------------------------------------------------------------

/// The packet type a header's type nibble names, if any.
pub open spec fn type_of_nibble(n: int) -> Option<PacketType> {
    if n == 1 {
        Some(PacketType::Connect)
    } else if n == 2 {
        Some(PacketType::Connack)
    } else if n == 3 {
        Some(PacketType::Publish)
    } else if n == 4 {
        Some(PacketType::Puback)
    } else if n == 5 {
        Some(PacketType::Pubrec)
    } else if n == 6 {
        Some(PacketType::Pubrel)
    } else if n == 7 {
        Some(PacketType::Pubcomp)
    } else if n == 8 {
        Some(PacketType::Subscribe)
    } else if n == 9 {
        Some(PacketType::Suback)
    } else if n == 10 {
        Some(PacketType::Unsubscribe)
    } else if n == 11 {
        Some(PacketType::Unsuback)
    } else if n == 12 {
        Some(PacketType::Pingreq)
    } else if n == 13 {
        Some(PacketType::Pingresp)
    } else if n == 14 {
        Some(PacketType::Disconnect)
    } else {
        None
    }
}

/// How the front of a buffer frames.
pub enum Front {
    /// Too few bytes to know the header, or to cover the declared body.
    Incomplete,
    /// The header itself violates the wire format.
    Malformed { err: Error },
    /// A complete frame: its first byte, the header's byte count, and the
    /// declared body byte count.
    Frame { head: u8, hlen: int, blen: int },
}

/// Parses the fixed header alone: type byte plus Remaining Length.  A frame
/// is reported as soon as both parse, whether or not the declared body is
/// buffered yet; checking the body's availability is the top-level decoder's
/// own step.
pub open spec fn parse_header(s: Seq<u8>) -> Front {
    if s.len() < 1 {
        Front::Incomplete
    } else if type_of_nibble((s[0] / 16) as int) is None {
        Front::Malformed { err: Error::UnknownPacketType }
    } else {
        match varint_rec(s, 1, 0, 0) {
            LenParse::Partial => Front::Incomplete,
            LenParse::Overflow => Front::Malformed { err: Error::InvalidLength },
            LenParse::Done { len, end } => Front::Frame { head: s[0], hlen: end, blen: len },
        }
    }
}

/// Classifies the front of a buffer for the top-level decoder: a frame whose
/// declared body is not fully buffered yet counts as incomplete.
pub open spec fn decode_front(s: Seq<u8>) -> Front {
    match parse_header(s) {
        Front::Incomplete => Front::Incomplete,
        Front::Malformed { err } => Front::Malformed { err },
        Front::Frame { head, hlen, blen } => if hlen + blen > s.len() {
            Front::Incomplete
        } else {
            Front::Frame { head, hlen, blen }
        },
    }
}

// ---------------------------------------------------------------------------
// Packet equality up to views.
//
// Packets own heap-backed strings and vectors, so "the decoded packet equals
// the encoded one" is stated field by field over views: character sequences
// for strings, byte sequences for binary fields.
// ---------------------------------------------------------------------------

/// Both absent, or both present with the same characters.
pub open spec fn same_option_str(a: Option<String>, b: Option<String>) -> bool {
    match (a, b) {
        (Option::None, Option::None) => true,
        (Option::Some(x), Option::Some(y)) => x@ == y@,
        _ => false,
    }
}

/// Both absent, or both present with the same bytes.
pub open spec fn same_option_bin(a: Option<Vec<u8>>, b: Option<Vec<u8>>) -> bool {
    match (a, b) {
        (Option::None, Option::None) => true,
        (Option::Some(x), Option::Some(y)) => x@ == y@,
        _ => false,
    }
}

/// Field-wise equality of two last-will messages.
pub open spec fn same_last_will(a: crate::connect::LastWill, b: crate::connect::LastWill) -> bool {
    a.topic@ == b.topic@ && a.message@ == b.message@ && a.qos == b.qos && a.retain == b.retain
}

/// Field-wise equality of two Connect payloads.
pub open spec fn same_connect(a: Connect, b: Connect) -> bool {
    a.protocol == b.protocol && a.keep_alive == b.keep_alive && a.client_id@ == b.client_id@
        && a.clean_session == b.clean_session && (match (a.last_will, b.last_will) {
        (Option::None, Option::None) => true,
        (Option::Some(x), Option::Some(y)) => same_last_will(x, y),
        _ => false,
    }) && same_option_str(a.username, b.username) && same_option_bin(a.password, b.password)
}

/// Field-wise equality of two Publish payloads.
pub open spec fn same_publish(a: Publish, b: Publish) -> bool {
    a.dup == b.dup && a.qospid == b.qospid && a.retain == b.retain && a.topic_name@
        == b.topic_name@ && a.payload@ == b.payload@
}

/// Field-wise equality of two Subscribe entries.
pub open spec fn same_topic(a: SubscribeTopic, b: SubscribeTopic) -> bool {
    a.topic_path@ == b.topic_path@ && a.qos == b.qos
}

/// Field-wise equality of two Subscribe payloads.
pub open spec fn same_subscribe(a: Subscribe, b: Subscribe) -> bool {
    a.pid == b.pid && a.topics@.len() == b.topics@.len() && forall|i: int|
        0 <= i < a.topics@.len() ==> same_topic(a.topics@[i], b.topics@[i])
}

/// Field-wise equality of two Suback payloads.
pub open spec fn same_suback(a: Suback, b: Suback) -> bool {
    a.pid == b.pid && a.return_codes@ == b.return_codes@
}

/// Field-wise equality of two Unsubscribe payloads.
pub open spec fn same_unsubscribe(a: Unsubscribe, b: Unsubscribe) -> bool {
    a.pid == b.pid && a.topics.deep_view() == b.topics.deep_view()
}

/// Equality of two packets up to views: same variant, same fields, with
/// strings compared by their characters and binary fields by their bytes.
pub open spec fn same_packet(a: Packet, b: Packet) -> bool {
    match (a, b) {
        (Packet::Connect(x), Packet::Connect(y)) => same_connect(x, y),
        (Packet::Connack(x), Packet::Connack(y)) => x == y,
        (Packet::Publish(x), Packet::Publish(y)) => same_publish(x, y),
        (Packet::Puback(x), Packet::Puback(y)) => x == y,
        (Packet::Pubrec(x), Packet::Pubrec(y)) => x == y,
        (Packet::Pubrel(x), Packet::Pubrel(y)) => x == y,
        (Packet::Pubcomp(x), Packet::Pubcomp(y)) => x == y,
        (Packet::Subscribe(x), Packet::Subscribe(y)) => same_subscribe(x, y),
        (Packet::Suback(x), Packet::Suback(y)) => same_suback(x, y),
        (Packet::Unsubscribe(x), Packet::Unsubscribe(y)) => same_unsubscribe(x, y),
        (Packet::Unsuback(x), Packet::Unsuback(y)) => x == y,
        (Packet::Pingreq, Packet::Pingreq) => true,
        (Packet::Pingresp, Packet::Pingresp) => true,
        (Packet::Disconnect, Packet::Disconnect) => true,
        _ => false,
    }
}

// ---------------------------------------------------------------------------
// Lemmas about the Remaining Length encoding.
// ---------------------------------------------------------------------------

/// `pow128` is positive.
pub proof fn lemma_pow128_pos(k: int)
    ensures
        pow128(k) >= 1,
    decreases k,
{
    if k > 0 {
        lemma_pow128_pos(k - 1);
    }
}

/// The byte count of a Remaining Length encoding: the boundaries 128, 16384
/// and 2097152 separate the 1-, 2-, 3- and 4-byte ranges.
pub proof fn lemma_varint_len(n: int)
    requires
        0 <= n <= 268435455,
    ensures
        varint(n).len() == (if n < 128 {
            1int
        } else if n < 16384 {
            2int
        } else if n < 2097152 {
            3int
        } else {
            4int
        }),
    decreases n,
{
    if n >= 128 {
        lemma_varint_len(n / 128);
    }
}

/// Reading a Remaining Length field from a buffer that holds a value's full
/// encoding yields exactly that value and stops just past it.
pub proof fn lemma_varint_parse_full(s: Seq<u8>, pos: int, count: int, acc: int, n: int)
    requires
        0 <= n,
        0 <= pos,
        0 <= count,
        0 <= acc,
        varint(n).len() <= 4 - count,
        pos + varint(n).len() as int <= s.len(),
        s.subrange(pos, pos + varint(n).len() as int) == varint(n),
    ensures
        varint_rec(s, pos, count, acc) == (LenParse::Done {
            len: acc + n * pow128(count),
            end: pos + varint(n).len() as int,
        }),
    decreases n,
{
    lemma_pow128_pos(count);
    if n < 128 {
        assert(varint(n) == seq![n as u8]);
        assert(s[pos] == s.subrange(pos, pos + 1)[0]);
        assert(s[pos] == n as u8);
        assert(s[pos] % 128 == n);
    } else {
        let b = ((n % 128) + 128) as u8;
        let tail = varint(n / 128);
        assert(varint(n) == seq![b] + tail);
        assert(s[pos] == s.subrange(pos, pos + varint(n).len() as int)[0]);
        assert(s[pos] == b);
        assert(b >= 128);
        assert(b % 128 == n % 128);
        assert(count <= 2);
        let acc2 = acc + (n % 128) * pow128(count);
        assert(s.subrange(pos + 1, pos + 1 + tail.len() as int) =~= tail) by {
            assert forall|i: int| 0 <= i < tail.len() implies s.subrange(
                pos + 1,
                pos + 1 + tail.len() as int,
            )[i] == tail[i] by {
                assert(s.subrange(pos + 1, pos + 1 + tail.len() as int)[i] == s[pos + 1 + i]);
                assert(s[pos + 1 + i] == s.subrange(pos, pos + varint(n).len() as int)[1 + i]);
                assert(varint(n)[1 + i] == tail[i]);
            }
        }
        assert((n % 128) * pow128(count) >= 0) by (nonlinear_arith)
            requires
                n % 128 >= 0,
                pow128(count) >= 1,
        ;
        lemma_varint_parse_full(s, pos + 1, count + 1, acc2, n / 128);
        lemma_fundamental_div_mod(n, 128);
        assert(pow128(count + 1) == 128 * pow128(count));
        assert((n % 128) * pow128(count) + (n / 128) * pow128(count + 1) == n * pow128(count))
            by (nonlinear_arith)
            requires
                n == 128 * (n / 128) + n % 128,
                pow128(count + 1) == 128 * pow128(count),
        ;
    }
}

/// Reading a Remaining Length field from a buffer that ends inside a value's
/// encoding reports that more bytes are needed, never a value or an error.
pub proof fn lemma_varint_parse_partial(s: Seq<u8>, pos: int, count: int, acc: int, n: int, k: int)
    requires
        0 <= n,
        0 <= pos,
        0 <= count,
        0 <= k < varint(n).len(),
        varint(n).len() <= 4 - count,
        s.len() == pos + k,
        s.subrange(pos, s.len() as int) == varint(n).take(k),
    ensures
        varint_rec(s, pos, count, acc) is Partial,
    decreases n,
{
    if k == 0 {
    } else {
        assert(varint(n).len() >= 2);
        if n < 128 {
            assert(varint(n).len() == 1);
            assert(false);
        }
        let b = ((n % 128) + 128) as u8;
        let tail = varint(n / 128);
        assert(varint(n) == seq![b] + tail);
        assert(s[pos] == s.subrange(pos, s.len() as int)[0]);
        assert(s[pos] == varint(n).take(k)[0]);
        assert(varint(n).take(k)[0] == varint(n)[0]);
        assert(s[pos] == b);
        assert(b >= 128);
        assert(count <= 2);
        assert(s.subrange(pos + 1, s.len() as int) =~= tail.take(k - 1)) by {
            assert forall|i: int| 0 <= i < k - 1 implies #[trigger] s.subrange(
                pos + 1,
                s.len() as int,
            )[i] == tail.take(k - 1)[i] by {
                assert(s.subrange(pos + 1, s.len() as int)[i] == s[pos + 1 + i]);
                assert(s[pos + 1 + i] == s.subrange(pos, s.len() as int)[1 + i]);
                assert(varint(n).take(k)[1 + i] == varint(n)[1 + i]);
                assert(varint(n)[1 + i] == tail[i]);
            }
        }
        lemma_varint_parse_partial(
            s,
            pos + 1,
            count + 1,
            acc + (s[pos] % 128) * pow128(count),
            n / 128,
            k - 1,
        );
    }
}

// ---------------------------------------------------------------------------
// Lemmas about list-bearing payload encodings.
// ---------------------------------------------------------------------------

/// Subscribe entries encode independently: splitting the list splits the
/// bytes.
pub proof fn lemma_topics_bytes_append(a: Seq<SubscribeTopic>, b: Seq<SubscribeTopic>)
    ensures
        topics_bytes(a + b) == topics_bytes(a) + topics_bytes(b),
    decreases a.len(),
{
    if a.len() == 0 {
        assert(a + b =~= b);
        assert(topics_bytes(a) + topics_bytes(b) =~= topics_bytes(b));
    } else {
        assert((a + b).len() > 0);
        assert((a + b)[0] == a[0]);
        assert((a + b).skip(1) =~= a.skip(1) + b);
        lemma_topics_bytes_append(a.skip(1), b);
        assert(topic_bytes(a[0]) + (topics_bytes(a.skip(1)) + topics_bytes(b)) =~= (topic_bytes(
            a[0],
        ) + topics_bytes(a.skip(1))) + topics_bytes(b));
    }
}

/// Unsubscribe filters encode independently: splitting the list splits the
/// bytes.
pub proof fn lemma_filters_bytes_append(a: Seq<Seq<char>>, b: Seq<Seq<char>>)
    ensures
        filters_bytes(a + b) == filters_bytes(a) + filters_bytes(b),
    decreases a.len(),
{
    if a.len() == 0 {
        assert(a + b =~= b);
        assert(filters_bytes(a) + filters_bytes(b) =~= filters_bytes(b));
    } else {
        assert((a + b).len() > 0);
        assert((a + b)[0] == a[0]);
        assert((a + b).skip(1) =~= a.skip(1) + b);
        lemma_filters_bytes_append(a.skip(1), b);
        assert(str_bytes(a[0]) + (filters_bytes(a.skip(1)) + filters_bytes(b)) =~= (str_bytes(a[0])
            + filters_bytes(a.skip(1))) + filters_bytes(b));
    }
}

/// Splitting a region of a buffer at a concatenation boundary.
pub proof fn lemma_split_region(s: Seq<u8>, start: int, a: Seq<u8>, b: Seq<u8>)
    requires
        0 <= start,
        start + a.len() + b.len() <= s.len(),
        s.subrange(start, start + a.len() + b.len()) == a + b,
    ensures
        s.subrange(start, start + a.len() as int) == a,
        s.subrange(start + a.len(), start + a.len() + b.len()) == b,
{
    assert(s.subrange(start, start + a.len() as int) =~= a) by {
        assert forall|i: int| 0 <= i < a.len() implies #[trigger] s.subrange(
            start,
            start + a.len() as int,
        )[i] == a[i] by {
            assert(s[start + i] == s.subrange(start, start + a.len() + b.len())[i]);
            assert((a + b)[i] == a[i]);
        }
    }
    assert(s.subrange(start + a.len(), start + a.len() + b.len()) =~= b) by {
        assert forall|i: int| 0 <= i < b.len() implies #[trigger] s.subrange(
            start + a.len(),
            start + a.len() + b.len(),
        )[i] == b[i] by {
            assert(s[start + a.len() + i] == s.subrange(start, start + a.len() + b.len())[
                a.len() + i
            ]);
            assert((a + b)[a.len() + i] == b[i]);
        }
    }
}

/// Reading back a 2-byte length prefix yields the value it was written from.
pub proof fn lemma_len16_be16(n: int)
    requires
        0 <= n <= 65535,
    ensures
        be16(len16(n)[0], len16(n)[1]) == n,
        0 <= len16(n)[0] < 256,
        0 <= len16(n)[1] < 256,
{
    lemma_fundamental_div_mod(n, 256);
}

/// Two identifiers with the same wire bytes are the same identifier.
pub proof fn lemma_pid_bytes_inj(a: Pid, b: Pid)
    requires
        pid_bytes(a) == pid_bytes(b),
    ensures
        a == b,
{
    lemma_len16_be16(a.spec_value() as int);
    lemma_len16_be16(b.spec_value() as int);
    assert(pid_bytes(a)[0] == pid_bytes(b)[0]);
    assert(pid_bytes(a)[1] == pid_bytes(b)[1]);
    crate::utils::lemma_pid_field_eq(a, b);
}

/// Two strings whose length-prefixed encodings start at the same place in
/// one buffer are the same string, and their encodings have the same size.
pub proof fn lemma_str_bytes_prefix_eq(s: Seq<u8>, start: int, a: Seq<char>, b: Seq<char>)
    requires
        0 <= start,
        valid_string(a),
        valid_string(b),
        start + str_bytes(a).len() <= s.len(),
        start + str_bytes(b).len() <= s.len(),
        s.subrange(start, start + str_bytes(a).len() as int) == str_bytes(a),
        s.subrange(start, start + str_bytes(b).len() as int) == str_bytes(b),
    ensures
        a == b,
        str_bytes(a).len() == str_bytes(b).len(),
{
    let ea = encode_utf8(a);
    let eb = encode_utf8(b);
    lemma_len16_be16(ea.len() as int);
    lemma_len16_be16(eb.len() as int);
    assert(s[start] == str_bytes(a)[0]);
    assert(s[start] == str_bytes(b)[0]);
    assert(s[start + 1] == str_bytes(a)[1]);
    assert(s[start + 1] == str_bytes(b)[1]);
    assert(str_bytes(a)[0] == len16(ea.len() as int)[0]);
    assert(str_bytes(a)[1] == len16(ea.len() as int)[1]);
    assert(str_bytes(b)[0] == len16(eb.len() as int)[0]);
    assert(str_bytes(b)[1] == len16(eb.len() as int)[1]);
    assert(ea.len() == eb.len());
    assert(ea =~= eb) by {
        assert forall|i: int| 0 <= i < ea.len() implies ea[i] == eb[i] by {
            assert(str_bytes(a)[2 + i] == ea[i]);
            assert(str_bytes(b)[2 + i] == eb[i]);
            assert(s[start + 2 + i] == str_bytes(a)[2 + i]);
            assert(s[start + 2 + i] == str_bytes(b)[2 + i]);
        }
    }
    vstd::utf8::encode_utf8_decode_utf8(a);
    vstd::utf8::encode_utf8_decode_utf8(b);
}

/// Two binary fields whose length-prefixed encodings start at the same
/// place in one buffer are the same bytes.
pub proof fn lemma_bin_bytes_prefix_eq(s: Seq<u8>, start: int, a: Seq<u8>, b: Seq<u8>)
    requires
        0 <= start,
        valid_bin(a),
        valid_bin(b),
        start + bin_bytes(a).len() <= s.len(),
        start + bin_bytes(b).len() <= s.len(),
        s.subrange(start, start + bin_bytes(a).len() as int) == bin_bytes(a),
        s.subrange(start, start + bin_bytes(b).len() as int) == bin_bytes(b),
    ensures
        a == b,
        bin_bytes(a).len() == bin_bytes(b).len(),
{
    lemma_len16_be16(a.len() as int);
    lemma_len16_be16(b.len() as int);
    assert(s[start] == bin_bytes(a)[0]);
    assert(s[start] == bin_bytes(b)[0]);
    assert(s[start + 1] == bin_bytes(a)[1]);
    assert(s[start + 1] == bin_bytes(b)[1]);
    assert(a.len() == b.len());
    assert(a =~= b) by {
        assert forall|i: int| 0 <= i < a.len() implies a[i] == b[i] by {
            assert(bin_bytes(a)[2 + i] == a[i]);
            assert(bin_bytes(b)[2 + i] == b[i]);
            assert(s[start + 2 + i] == bin_bytes(a)[2 + i]);
            assert(s[start + 2 + i] == bin_bytes(b)[2 + i]);
        }
    }
}

/// Appending one Subscribe entry appends its bytes.
pub proof fn lemma_topics_bytes_snoc(ts: Seq<SubscribeTopic>, t: SubscribeTopic)
    ensures
        topics_bytes(ts.push(t)) == topics_bytes(ts) + topic_bytes(t),
{
    assert(ts.push(t) =~= ts + seq![t]);
    lemma_topics_bytes_append(ts, seq![t]);
    assert(seq![t].skip(1) =~= Seq::<SubscribeTopic>::empty());
    assert(topics_bytes(seq![t]) == topic_bytes(t) + topics_bytes(Seq::<SubscribeTopic>::empty()));
    assert(topic_bytes(t) + Seq::<u8>::empty() =~= topic_bytes(t));
    assert(topics_bytes(ts) + topics_bytes(seq![t]) =~= topics_bytes(ts) + topic_bytes(t));
}

/// A Subscribe entry list's bytes split around any one entry.
pub proof fn lemma_topics_bytes_split_at(ts: Seq<SubscribeTopic>, n: int)
    requires
        0 <= n < ts.len(),
    ensures
        topics_bytes(ts) == topics_bytes(ts.take(n)) + (topic_bytes(ts[n]) + topics_bytes(
            ts.skip(n + 1),
        )),
{
    assert(ts =~= ts.take(n) + ts.skip(n));
    lemma_topics_bytes_append(ts.take(n), ts.skip(n));
    assert(ts.skip(n).len() > 0);
    assert(ts.skip(n)[0] == ts[n]);
    assert(ts.skip(n).skip(1) =~= ts.skip(n + 1));
    assert(topics_bytes(ts.skip(n)) == topic_bytes(ts[n]) + topics_bytes(ts.skip(n + 1)));
}

/// Appending one Unsubscribe filter appends its bytes.
pub proof fn lemma_filters_bytes_snoc(fs: Seq<Seq<char>>, f: Seq<char>)
    ensures
        filters_bytes(fs.push(f)) == filters_bytes(fs) + str_bytes(f),
{
    assert(fs.push(f) =~= fs + seq![f]);
    lemma_filters_bytes_append(fs, seq![f]);
    assert(seq![f].skip(1) =~= Seq::<Seq<char>>::empty());
    assert(filters_bytes(seq![f]) == str_bytes(f) + filters_bytes(Seq::<Seq<char>>::empty()));
    assert(str_bytes(f) + Seq::<u8>::empty() =~= str_bytes(f));
    assert(filters_bytes(fs) + filters_bytes(seq![f]) =~= filters_bytes(fs) + str_bytes(f));
}

/// An Unsubscribe filter list's bytes split around any one filter.
pub proof fn lemma_filters_bytes_split_at(fs: Seq<Seq<char>>, n: int)
    requires
        0 <= n < fs.len(),
    ensures
        filters_bytes(fs) == filters_bytes(fs.take(n)) + (str_bytes(fs[n]) + filters_bytes(
            fs.skip(n + 1),
        )),
{
    assert(fs =~= fs.take(n) + fs.skip(n));
    lemma_filters_bytes_append(fs.take(n), fs.skip(n));
    assert(fs.skip(n).len() > 0);
    assert(fs.skip(n)[0] == fs[n]);
    assert(fs.skip(n).skip(1) =~= fs.skip(n + 1));
    assert(filters_bytes(fs.skip(n)) == str_bytes(fs[n]) + filters_bytes(fs.skip(n + 1)));
}

/// Facts about a length-prefixed string sitting at `start` in `s`: what its
/// prefix reads back as, where its UTF-8 bytes lie, and that they decode to
/// the original characters.
pub proof fn lemma_str_at(s: Seq<u8>, start: int, t: Seq<char>)
    requires
        0 <= start,
        valid_string(t),
        start + str_bytes(t).len() <= s.len(),
        s.subrange(start, start + str_bytes(t).len() as int) == str_bytes(t),
    ensures
        str_bytes(t).len() == 2 + encode_utf8(t).len(),
        be16(s[start], s[start + 1]) == encode_utf8(t).len(),
        s.subrange(start + 2, start + 2 + encode_utf8(t).len() as int) == encode_utf8(t),
        vstd::utf8::valid_utf8(s.subrange(start + 2, start + 2 + encode_utf8(t).len() as int)),
        vstd::utf8::decode_utf8(s.subrange(start + 2, start + 2 + encode_utf8(t).len() as int))
            == t,
{
    let e = encode_utf8(t);
    lemma_split_region(s, start, len16(e.len() as int), e);
    lemma_len16_be16(e.len() as int);
    assert(s[start] == s.subrange(start, start + 2)[0]);
    assert(s[start + 1] == s.subrange(start, start + 2)[1]);
    vstd::utf8::encode_utf8_valid_utf8(t);
    vstd::utf8::encode_utf8_decode_utf8(t);
}

/// Facts about a length-prefixed binary field sitting at `start` in `s`.
pub proof fn lemma_bin_at(s: Seq<u8>, start: int, b: Seq<u8>)
    requires
        0 <= start,
        valid_bin(b),
        start + bin_bytes(b).len() <= s.len(),
        s.subrange(start, start + bin_bytes(b).len() as int) == bin_bytes(b),
    ensures
        bin_bytes(b).len() == 2 + b.len(),
        be16(s[start], s[start + 1]) == b.len(),
        s.subrange(start + 2, start + 2 + b.len() as int) == b,
{
    lemma_split_region(s, start, len16(b.len() as int), b);
    lemma_len16_be16(b.len() as int);
    assert(s[start] == s.subrange(start, start + 2)[0]);
    assert(s[start + 1] == s.subrange(start, start + 2)[1]);
}

/// How the flags nibble of a Publish header decomposes back into its dup,
/// quality-of-service and retain fields.
pub proof fn lemma_publish_flags_decomp(p: Publish)
    ensures
        0 <= publish_flags(p) <= 13,
        publish_flags(p) / 8 == (if p.dup {
            1int
        } else {
            0int
        }),
        (publish_flags(p) / 2) % 4 == p.qospid.spec_qos().as_u8(),
        publish_flags(p) % 2 == (if p.retain {
            1int
        } else {
            0int
        }),
{
    let x = p.qospid.spec_qos().as_u8() as int;
    assert(0 <= x <= 2);
    let f = publish_flags(p);
    if p.dup {
        if p.retain {
            assert(f == 9 + 2 * x);
        } else {
            assert(f == 8 + 2 * x);
        }
    } else {
        if p.retain {
            assert(f == 1 + 2 * x);
        } else {
            assert(f == 2 * x);
        }
    }
    assert(f / 8 == (if p.dup { 1int } else { 0int }) && (f / 2) % 4 == x && f % 2 == (if p.retain {
        1int
    } else {
        0int
    })) by (nonlinear_arith)
        requires
            0 <= x <= 2,
            f == (if p.dup { 8int } else { 0int }) + 2 * x + (if p.retain { 1int } else { 0int }),
    ;
}

/// How the flag byte of a Connect packet decomposes back into its fields.
pub proof fn lemma_connect_flags_decomp(c: Connect)
    ensures
        0 <= connect_flags(c) <= 254,
        connect_flags(c) % 2 == 0,
        connect_flags(c) / 128 == (if c.username is Some {
            1int
        } else {
            0int
        }),
        (connect_flags(c) / 64) % 2 == (if c.password is Some {
            1int
        } else {
            0int
        }),
        (connect_flags(c) / 4) % 2 == (if c.last_will is Some {
            1int
        } else {
            0int
        }),
        (connect_flags(c) / 8) % 4 == (match c.last_will {
            Some(w) => w.qos.as_u8() as int,
            None => 0int,
        }),
        (connect_flags(c) / 32) % 2 == (match c.last_will {
            Some(w) => if w.retain {
                1int
            } else {
                0int
            },
            None => 0int,
        }),
        (connect_flags(c) / 2) % 2 == (if c.clean_session {
            1int
        } else {
            0int
        }),
{
    let f = connect_flags(c);
    let a = if c.username is Some { 1int } else { 0int };
    let b = if c.password is Some { 1int } else { 0int };
    let w = if c.last_will is Some { 1int } else { 0int };
    let x = match c.last_will {
        Some(lw) => lw.qos.as_u8() as int,
        None => 0int,
    };
    let rt = match c.last_will {
        Some(lw) => if lw.retain {
            1int
        } else {
            0int
        },
        None => 0int,
    };
    let cs = if c.clean_session { 1int } else { 0int };
    assert(f == 128 * a + 64 * b + 32 * rt + 8 * x + 4 * w + 2 * cs);
    assert(0 <= x <= 2);
    assert(w == 0 ==> x == 0 && rt == 0);
    assert(f % 2 == 0 && f / 128 == a && (f / 64) % 2 == b && (f / 4) % 2 == w && (f / 8) % 4 == x
        && (f / 32) % 2 == rt && (f / 2) % 2 == cs && f <= 254) by (nonlinear_arith)
        requires
            f == 128 * a + 64 * b + 32 * rt + 8 * x + 4 * w + 2 * cs,
            0 <= a <= 1,
            0 <= b <= 1,
            0 <= w <= 1,
            0 <= rt <= 1,
            0 <= cs <= 1,
            0 <= x <= 2,
    ;
}

// ---------------------------------------------------------------------------
// The two framing laws.
// ---------------------------------------------------------------------------

/// The head byte of any packet names its own type.
pub proof fn lemma_head_nibble(p: Packet)
    ensures
        type_of_nibble((head_byte(p) / 16) as int) == Some(p.spec_get_type()),
        (match p {
            Packet::Publish(_) => true,
            _ => head_byte(p) % 16 == (if p is Pubrel || p is Subscribe || p is Unsubscribe {
                2int
            } else {
                0int
            }),
        }),
{
    match p {
        Packet::Publish(pb) => {
            let f = publish_flags(pb);
            assert(0 <= f <= 13);
            assert(head_byte(p) == (48 + f) as u8);
            assert((48 + f) / 16 == 3) by (nonlinear_arith)
                requires
                    0 <= f <= 13,
            ;
        },
        _ => {},
    }
}

/// Framing half of the round-trip law: a buffer that begins with the full
/// wire encoding of a valid packet frames as exactly that encoding -- its
/// head byte, its header length, and its body -- no matter what follows.
/// Together with the contracts of `decode` and `encode`, decoding a buffer
/// that `encode` just filled yields a packet equal to the original and
/// consumes exactly its bytes.
pub proof fn lemma_wire_frame(p: Packet, rest: Seq<u8>)
    requires
        valid_packet(p),
    ensures
        ({
            let s = wire(p) + rest;
            let bl = wire_body(p).len() as int;
            let hl = 1 + varint(bl).len() as int;
            &&& decode_front(s) == (Front::Frame { head: head_byte(p), hlen: hl, blen: bl })
            &&& s.subrange(hl, hl + bl) == wire_body(p)
            &&& hl + bl == wire(p).len()
            &&& type_of_nibble((head_byte(p) / 16) as int) == Some(p.spec_get_type())
        }),
{
    let s = wire(p) + rest;
    let body = wire_body(p);
    let bl = body.len() as int;
    let vi = varint(bl);
    let hl = 1 + vi.len() as int;
    lemma_varint_len(bl);
    lemma_head_nibble(p);
    assert(s[0] == head_byte(p));
    assert(s.subrange(1, 1 + vi.len() as int) =~= vi) by {
        assert forall|i: int| 0 <= i < vi.len() implies s.subrange(1, 1 + vi.len() as int)[i] == vi[i] by {
            assert(s[1 + i] == wire(p)[1 + i]);
            assert(wire(p)[1 + i] == (seq![head_byte(p)] + vi)[1 + i]);
        }
    }
    lemma_varint_parse_full(s, 1, 0, 0, bl);
    assert(pow128(0) == 1);
    assert(bl * pow128(0) == bl) by (nonlinear_arith)
        requires
            pow128(0) == 1,
    ;
    assert(varint_rec(s, 1, 0, 0) == (LenParse::Done { len: bl, end: hl }));
    assert(parse_header(s) == (Front::Frame { head: head_byte(p), hlen: hl, blen: bl }));
    assert(hl + bl == wire(p).len());
    assert(s.subrange(hl, hl + bl) =~= body) by {
        assert forall|i: int| 0 <= i < bl implies s.subrange(hl, hl + bl)[i] == body[i] by {
            assert(s[hl + i] == wire(p)[hl + i]);
            assert(wire(p)[hl + i] == ((seq![head_byte(p)] + vi) + body)[hl + i]);
        }
    }
}

/// Partial-decode safety: cut the wire encoding of a valid packet anywhere
/// short of its end and the front of the truncated buffer is `Incomplete`.
/// Together with the contract of `decode`, decoding such a buffer yields
/// `Ok(None)` and consumes nothing.
pub proof fn lemma_truncated_is_incomplete(p: Packet, n: int)
    requires
        valid_packet(p),
        0 <= n < wire(p).len(),
    ensures
        decode_front(wire(p).take(n)) is Incomplete,
{
    let s = wire(p).take(n);
    if n == 0 {
    } else {
        let body = wire_body(p);
        let bl = body.len() as int;
        let vi = varint(bl);
        let hl = 1 + vi.len() as int;
        lemma_varint_len(bl);
        lemma_head_nibble(p);
        assert(s[0] == wire(p)[0]);
        assert(s[0] == head_byte(p));
        if n < hl {
            assert(s.subrange(1, n) =~= vi.take(n - 1)) by {
                assert forall|i: int| 0 <= i < n - 1 implies s.subrange(1, n)[i] == vi.take(
                    n - 1,
                )[i] by {
                    assert(s[1 + i] == wire(p)[1 + i]);
                    assert(wire(p)[1 + i] == (seq![head_byte(p)] + vi)[1 + i]);
                }
            }
            lemma_varint_parse_partial(s, 1, 0, 0, bl, n - 1);
            assert(parse_header(s) is Incomplete);
        } else {
            assert(s.subrange(1, 1 + vi.len() as int) =~= vi) by {
                assert forall|i: int| 0 <= i < vi.len() implies s.subrange(1, 1 + vi.len() as int)[i]
                    == vi[i] by {
                    assert(s[1 + i] == wire(p)[1 + i]);
                    assert(wire(p)[1 + i] == (seq![head_byte(p)] + vi)[1 + i]);
                }
            }
            lemma_varint_parse_full(s, 1, 0, 0, bl);
            assert(pow128(0) == 1);
            assert(bl * pow128(0) == bl) by (nonlinear_arith)
                requires
                    pow128(0) == 1,
            ;
            assert(hl + bl == wire(p).len());
            assert(hl + bl > s.len());
            assert(parse_header(s) == (Front::Frame { head: head_byte(p), hlen: hl, blen: bl }));
        }
    }
}

} // verus!

