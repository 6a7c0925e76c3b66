//! The decode half of the codec: streaming-safe header parsing, primitive
//! field readers, and the top-level `decode` entry point.

use vstd::prelude::*;
use vstd::slice::{slice_subrange, slice_to_vec};
use vstd::utf8::{decode_utf8, encode_utf8, valid_utf8};

use crate::packet::{Packet, PacketType};
use crate::utils::Error;
use crate::wire::{
    be16, bin_bytes, decode_front, head_byte, parse_header, pow128, same_packet, str_bytes,
    type_of_nibble, valid_bin, valid_packet, valid_string, varint_rec, wire_body, Front, LenParse,
};

verus! {

/// Relies on String::from_utf8: it succeeds exactly on valid UTF-8 input,
/// and the characters of the resulting string are the UTF-8 decoding of the
/// input bytes, as vstd's `decode_utf8` defines it.
#[verifier::external_body]
fn string_from_utf8(v: Vec<u8>) -> (r: Option<String>)
    ensures
        r is Some <==> valid_utf8(v@),
        r matches Some(s) ==> s@ == decode_utf8(v@),
{
    String::from_utf8(v).ok()
}

/// A parsed fixed header: the packet type, the flags nibble, and the
/// declared byte count of everything that follows the header.
#[derive(Debug, Clone, Copy, PartialEq, Eq, Structural)]
pub struct Header {
    pub typ: PacketType,
    pub flags: u8,
    pub len: usize,
}

/// Maps a header's type nibble to its packet type; nibbles 0 and 15 name no
/// known kind.
fn packet_type_from_nibble(n: u8) -> (r: Result<PacketType, Error>)
    ensures
        match type_of_nibble(n as int) {
            Some(t) => r == Result::<PacketType, Error>::Ok(t),
            None => r == Result::<PacketType, Error>::Err(Error::UnknownPacketType),
        },
{
    match n {
        1 => Ok(PacketType::Connect),
        2 => Ok(PacketType::Connack),
        3 => Ok(PacketType::Publish),
        4 => Ok(PacketType::Puback),
        5 => Ok(PacketType::Pubrec),
        6 => Ok(PacketType::Pubrel),
        7 => Ok(PacketType::Pubcomp),
        8 => Ok(PacketType::Subscribe),
        9 => Ok(PacketType::Suback),
        10 => Ok(PacketType::Unsubscribe),
        11 => Ok(PacketType::Unsuback),
        12 => Ok(PacketType::Pingreq),
        13 => Ok(PacketType::Pingresp),
        14 => Ok(PacketType::Disconnect),
        _ => Err(Error::UnknownPacketType),
    }
}

/// Reads a Remaining Length field from `buf` starting at `pos`.
///
/// Returns `Ok(Some((len, end)))` with the decoded value and the index just
/// past its last byte, `Ok(None)` when the buffer ends before a byte with a
/// clear continuation bit (the caller must supply more bytes and retry), and
/// `Err(InvalidLength)` when a fourth byte still carries a continuation bit.
pub fn read_length(buf: &Vec<u8>, pos: usize) -> (r: Result<Option<(usize, usize)>, Error>)
    ensures
        match varint_rec(buf@, pos as int, 0, 0) {
            LenParse::Partial => r == Result::<Option<(usize, usize)>, Error>::Ok(None),
            LenParse::Overflow => r == Result::<Option<(usize, usize)>, Error>::Err(
                Error::InvalidLength,
            ),
            LenParse::Done { len, end } => 0 <= len <= 268435455 && pos < end <= buf@.len() && r
                == Result::<Option<(usize, usize)>, Error>::Ok(
                Some((len as usize, end as usize)),
            ),
        },
{
    let mut i = pos;
    let mut count: usize = 0;
    let mut acc: usize = 0;
    proof {
        assert(pow128(0) == 1);
        assert(pow128(1) == 128);
        assert(pow128(2) == 16384);
        assert(pow128(3) == 2097152);
        assert(pow128(4) == 268435456);
    }
    loop
        invariant
            i == pos + count,
            count <= 3,
            acc <= pow128(count as int) - 1,
            acc <= 2097151,
            varint_rec(buf@, pos as int, 0, 0) == varint_rec(buf@, i as int, count as int, acc as int),
        decreases 4 - count,
    {
        proof {
            assert(pow128(0) == 1);
            assert(pow128(1) == 128);
            assert(pow128(2) == 16384);
            assert(pow128(3) == 2097152);
            assert(pow128(4) == 268435456);
        }
        if i >= buf.len() {
            return Ok(None);
        }
        let b = buf[i];
        let add: usize = if count == 0 {
            (b % 128) as usize
        } else if count == 1 {
            (b % 128) as usize * 128
        } else if count == 2 {
            (b % 128) as usize * 16384
        } else {
            (b % 128) as usize * 2097152
        };
        proof {
            assert(add == (b % 128) * pow128(count as int));
        }
        let acc2: usize = acc + add;
        if b < 128 {
            return Ok(Some((acc2, i + 1)));
        } else if count >= 3 {
            return Err(Error::InvalidLength);
        } else {
            i = i + 1;
            count = count + 1;
            acc = acc2;
        }
    }
}

/// A length-prefixed UTF-8 string field can be read at `start` without
/// touching `end`: the 2-byte count is present, the counted bytes are
/// present, and they are valid UTF-8.
pub open spec fn str_readable(s: Seq<u8>, start: int, end: int) -> bool {
    start + 2 <= end && {
        let l = be16(s[start], s[start + 1]);
        start + 2 + l <= end && valid_utf8(s.subrange(start + 2, start + 2 + l))
    }
}

/// A length-prefixed binary field can be read at `start` without touching
/// `end`.
pub open spec fn bin_readable(s: Seq<u8>, start: int, end: int) -> bool {
    start + 2 <= end && start + 2 + be16(s[start], s[start + 1]) <= end
}

/// Reads a length-prefixed UTF-8 string field, never reading at or past
/// `end`: 2-byte big-endian byte count, then that many bytes, which must be
/// valid UTF-8.
pub fn read_str(buf: &Vec<u8>, offset: &mut usize, end: usize) -> (r: Result<String, Error>)
    requires
        *old(offset) <= end <= buf@.len(),
    ensures
        r is Ok <==> str_readable(buf@, *old(offset) as int, end as int),
        ({
            let start = *old(offset) as int;
            if start + 2 > end {
                r == Result::<String, Error>::Err(Error::InvalidLength)
            } else {
                let l = be16(buf@[start], buf@[start + 1]);
                if start + 2 + l > end {
                    r == Result::<String, Error>::Err(Error::InvalidLength)
                } else if !valid_utf8(buf@.subrange(start + 2, start + 2 + l)) {
                    r == Result::<String, Error>::Err(Error::InvalidUtf8)
                } else {
                    r matches Ok(s) && s@ == decode_utf8(buf@.subrange(start + 2, start + 2 + l))
                        && *final(offset) == start + 2 + l && buf@.subrange(start, start + 2 + l)
                        == str_bytes(s@) && valid_string(s@)
                }
            }
        }),
{
    let start = *offset;
    if end - start < 2 {
        return Err(Error::InvalidLength);
    }
    let hi = buf[start];
    let lo = buf[start + 1];
    let l: usize = (hi as usize) * 256 + (lo as usize);
    if l > end - (start + 2) {
        return Err(Error::InvalidLength);
    }
    let bytes = slice_to_vec(slice_subrange(buf.as_slice(), start + 2, start + 2 + l));
    let ghost sub = buf@.subrange(start as int + 2, start as int + 2 + l as int);
    match string_from_utf8(bytes) {
        None => Err(Error::InvalidUtf8),
        Some(s) => {
            *offset = start + 2 + l;
            proof {
                vstd::utf8::decode_utf8_encode_utf8(sub);
                assert(encode_utf8(s@) == sub);
                assert(l as int / 256 == hi as int && l as int % 256 == lo as int)
                    by (nonlinear_arith)
                    requires
                        l as int == hi as int * 256 + lo as int,
                        0 <= lo < 256,
                        0 <= hi < 256,
                ;
                assert(buf@.subrange(start as int, start as int + 2 + l as int) =~= str_bytes(s@));
            }
            Ok(s)
        },
    }
}

/// Reads a length-prefixed binary field, never reading at or past `end`:
/// 2-byte big-endian byte count, then that many raw bytes.
pub fn read_bin(buf: &Vec<u8>, offset: &mut usize, end: usize) -> (r: Result<Vec<u8>, Error>)
    requires
        *old(offset) <= end <= buf@.len(),
    ensures
        r is Ok <==> bin_readable(buf@, *old(offset) as int, end as int),
        ({
            let start = *old(offset) as int;
            if start + 2 > end {
                r == Result::<Vec<u8>, Error>::Err(Error::InvalidLength)
            } else {
                let l = be16(buf@[start], buf@[start + 1]);
                if start + 2 + l > end {
                    r == Result::<Vec<u8>, Error>::Err(Error::InvalidLength)
                } else {
                    r matches Ok(v) && v@ == buf@.subrange(start + 2, start + 2 + l)
                        && *final(offset) == start + 2 + l
                        && buf@.subrange(start, start + 2 + l) == bin_bytes(v@)
                        && valid_bin(v@)
                }
            }
        }),
{
    let start = *offset;
    if end - start < 2 {
        return Err(Error::InvalidLength);
    }
    let hi = buf[start];
    let lo = buf[start + 1];
    let l: usize = (hi as usize) * 256 + (lo as usize);
    if l > end - (start + 2) {
        return Err(Error::InvalidLength);
    }
    let v = slice_to_vec(slice_subrange(buf.as_slice(), start + 2, start + 2 + l));
    *offset = start + 2 + l;
    proof {
        assert(l as int / 256 == hi as int && l as int % 256 == lo as int) by (nonlinear_arith)
            requires
                l as int == hi as int * 256 + lo as int,
                0 <= lo < 256,
                0 <= hi < 256,
        ;
        assert(buf@.subrange(start as int, start as int + 2 + l as int) =~= bin_bytes(v@));
    }
    Ok(v)
}

/// Parses the fixed header at the front of `buf`.
///
/// Returns `Ok(Some((header, size)))`, with `size` the count of header
/// bytes, as soon as the type byte and the Remaining Length field parse --
/// whether or not the declared body is buffered yet, which is the top-level
/// decoder's own check.  Returns `Ok(None)` when the buffer ends before the
/// header is complete (nothing is consumed), and `Err` when the type nibble
/// or the Remaining Length field is malformed.
pub fn read_header(buf: &Vec<u8>) -> (r: Result<Option<(Header, usize)>, Error>)
    ensures
        match parse_header(buf@) {
            Front::Incomplete => r == Result::<Option<(Header, usize)>, Error>::Ok(None),
            Front::Malformed { err } => r == Result::<Option<(Header, usize)>, Error>::Err(err),
            Front::Frame { head, hlen, blen } => r matches Ok(Some((h, size)))
                && Some(h.typ) == type_of_nibble((head / 16) as int) && h.flags == head % 16
                && h.len == blen && size == hlen && hlen <= buf@.len() && 1 <= hlen && 0 <= blen
                <= 268435455,
        },
{
    if buf.len() < 1 {
        return Ok(None);
    }
    let b0 = buf[0];
    let typ = match packet_type_from_nibble(b0 / 16) {
        Ok(t) => t,
        Err(e) => {
            return Err(e);
        },
    };
    match read_length(buf, 1) {
        Err(e) => Err(e),
        Ok(None) => Ok(None),
        Ok(Some((len, end))) => Ok(Some((Header { typ, flags: b0 % 16, len }, end))),
    }
}


/// Decodes one packet from the front of `buffer`.
///
/// When the buffer holds fewer bytes than one complete packet, returns
/// `Ok(None)` and leaves the buffer untouched so the caller can supply more
/// bytes and retry.  On success or on a malformed payload, the whole span of
/// the packet -- header plus declared body -- is removed from the front of
/// the buffer; any following bytes belong to the next packet and stay.  A
/// malformed header leaves the buffer untouched.
#[verifier::rlimit(100)]
#[verifier::spinoff_prover]
#[verifier::loop_isolation(false)]
pub fn decode(buffer: &mut Vec<u8>) -> (r: Result<Option<Packet>, Error>)
    ensures
        ({
            let s = old(buffer)@;
            match decode_front(s) {
                Front::Incomplete => r == Result::<Option<Packet>, Error>::Ok(None)
                    && final(buffer)@ == s,
                Front::Malformed { err } => r == Result::<Option<Packet>, Error>::Err(err)
                    && final(buffer)@ == s,
                Front::Frame { head, hlen, blen } => {
                    let body = s.subrange(hlen, hlen + blen);
                    &&& final(buffer)@ == s.skip(hlen + blen)
                    &&& (r matches Ok(op) ==> op is Some)
                    &&& (r matches Ok(Some(p)) ==> Some(p.spec_get_type()) == type_of_nibble(
                        (head / 16) as int,
                    ) && wire_body(p) == body && valid_packet(p) && (p is Publish ==> head
                        == head_byte(p)))
                    &&& (forall|q: Packet|
                        (valid_packet(q) && type_of_nibble((head / 16) as int) == Some(
                            q.spec_get_type(),
                        ) && body == #[trigger] wire_body(q) && (q is Publish ==> head
                            == head_byte(q))) ==> (r matches Ok(Some(p)) && same_packet(p, q)))
                },
            }
        }),
{
    let ghost s = buffer@;
    let buf_len = buffer.len();
    let (h, hsize) = match read_header(&*buffer) {
        Ok(None) => {
            return Ok(None);
        },
        Err(e) => {
            return Err(e);
        },
        Ok(Some(pair)) => pair,
    };
    if h.len > buf_len - hsize {
        return Ok(None);
    }
    let span = hsize + h.len;
    let ghost head = s[0];
    let ghost body = s.subrange(hsize as int, span as int);
    let mut offset = hsize;
    let result: Result<Packet, Error> = match h.typ {
        PacketType::Connect => {
            match crate::connect::Connect::from_buffer(h.len, &*buffer, &mut offset) {
                Ok(c) => Ok(Packet::Connect(c)),
                Err(e) => Err(e),
            }
        },
        PacketType::Connack => {
            match crate::connect::Connack::from_buffer(h.len, &*buffer, &mut offset) {
                Ok(c) => Ok(Packet::Connack(c)),
                Err(e) => Err(e),
            }
        },
        PacketType::Publish => {
            match crate::publish::Publish::from_buffer(h.flags, h.len, &*buffer, &mut offset) {
                Ok(pb) => Ok(Packet::Publish(pb)),
                Err(e) => Err(e),
            }
        },
        PacketType::Puback => match read_pid_body(h.len, &*buffer, &mut offset) {
            Ok(pid) => Ok(Packet::Puback(pid)),
            Err(e) => Err(e),
        },
        PacketType::Pubrec => match read_pid_body(h.len, &*buffer, &mut offset) {
            Ok(pid) => Ok(Packet::Pubrec(pid)),
            Err(e) => Err(e),
        },
        PacketType::Pubrel => match read_pid_body(h.len, &*buffer, &mut offset) {
            Ok(pid) => Ok(Packet::Pubrel(pid)),
            Err(e) => Err(e),
        },
        PacketType::Pubcomp => match read_pid_body(h.len, &*buffer, &mut offset) {
            Ok(pid) => Ok(Packet::Pubcomp(pid)),
            Err(e) => Err(e),
        },
        PacketType::Subscribe => {
            match crate::subscribe::Subscribe::from_buffer(h.len, &*buffer, &mut offset) {
                Ok(sub) => Ok(Packet::Subscribe(sub)),
                Err(e) => Err(e),
            }
        },
        PacketType::Suback => {
            match crate::subscribe::Suback::from_buffer(h.len, &*buffer, &mut offset) {
                Ok(sa) => Ok(Packet::Suback(sa)),
                Err(e) => Err(e),
            }
        },
        PacketType::Unsubscribe => {
            match crate::subscribe::Unsubscribe::from_buffer(h.len, &*buffer, &mut offset) {
                Ok(u) => Ok(Packet::Unsubscribe(u)),
                Err(e) => Err(e),
            }
        },
        PacketType::Unsuback => match read_pid_body(h.len, &*buffer, &mut offset) {
            Ok(pid) => Ok(Packet::Unsuback(pid)),
            Err(e) => Err(e),
        },
        PacketType::Pingreq => {
            if h.len == 0 {
                Ok(Packet::Pingreq)
            } else {
                Err(Error::InvalidLength)
            }
        },
        PacketType::Pingresp => {
            if h.len == 0 {
                Ok(Packet::Pingresp)
            } else {
                Err(Error::InvalidLength)
            }
        },
        PacketType::Disconnect => {
            if h.len == 0 {
                Ok(Packet::Disconnect)
            } else {
                Err(Error::InvalidLength)
            }
        },
    };
    proof {
        assert forall|q: Packet|
            (valid_packet(q) && type_of_nibble((head / 16) as int) == Some(q.spec_get_type())
                && body == #[trigger] wire_body(q) && (q is Publish ==> head == head_byte(q)))
                implies (result matches Ok(p) && same_packet(p, q)) by {
            match q {
                Packet::Connect(qc) => {
                    assert(wire_body(q) == crate::wire::connect_body(qc));
                },
                Packet::Connack(qc) => {
                    assert(wire_body(q) == crate::wire::connack_body(qc));
                },
                Packet::Publish(qp) => {
                    crate::wire::lemma_publish_flags_decomp(qp);
                    assert(head == 48 + crate::wire::publish_flags(qp));
                    assert(head % 16 == crate::wire::publish_flags(qp)) by (nonlinear_arith)
                        requires
                            head == 48 + crate::wire::publish_flags(qp),
                            0 <= crate::wire::publish_flags(qp) <= 13,
                    ;
                    assert(wire_body(q) == crate::wire::publish_body(qp));
                },
                Packet::Subscribe(qs) => {
                    assert(wire_body(q) == crate::wire::pid_bytes(qs.pid)
                        + crate::wire::topics_bytes(qs.topics@));
                },
                Packet::Suback(qs) => {
                    assert(wire_body(q) == crate::wire::pid_bytes(qs.pid)
                        + crate::wire::codes_bytes(qs.return_codes@));
                },
                Packet::Unsubscribe(qu) => {
                    assert(wire_body(q) == crate::wire::pid_bytes(qu.pid)
                        + crate::wire::filters_bytes(qu.topics.deep_view()));
                },
                Packet::Puback(qpid) => {
                    crate::wire::lemma_len16_be16(qpid.spec_value() as int);
                    assert(buffer@[hsize as int] == body[0]);
                    assert(buffer@[hsize as int + 1] == body[1]);
                    match result {
                        Ok(Packet::Puback(p2)) => {
                            crate::wire::lemma_pid_bytes_inj(p2, qpid);
                        },
                        _ => {},
                    }
                },
                Packet::Pubrec(qpid) => {
                    crate::wire::lemma_len16_be16(qpid.spec_value() as int);
                    assert(buffer@[hsize as int] == body[0]);
                    assert(buffer@[hsize as int + 1] == body[1]);
                    match result {
                        Ok(Packet::Pubrec(p2)) => {
                            crate::wire::lemma_pid_bytes_inj(p2, qpid);
                        },
                        _ => {},
                    }
                },
                Packet::Pubrel(qpid) => {
                    crate::wire::lemma_len16_be16(qpid.spec_value() as int);
                    assert(buffer@[hsize as int] == body[0]);
                    assert(buffer@[hsize as int + 1] == body[1]);
                    match result {
                        Ok(Packet::Pubrel(p2)) => {
                            crate::wire::lemma_pid_bytes_inj(p2, qpid);
                        },
                        _ => {},
                    }
                },
                Packet::Pubcomp(qpid) => {
                    crate::wire::lemma_len16_be16(qpid.spec_value() as int);
                    assert(buffer@[hsize as int] == body[0]);
                    assert(buffer@[hsize as int + 1] == body[1]);
                    match result {
                        Ok(Packet::Pubcomp(p2)) => {
                            crate::wire::lemma_pid_bytes_inj(p2, qpid);
                        },
                        _ => {},
                    }
                },
                Packet::Unsuback(qpid) => {
                    crate::wire::lemma_len16_be16(qpid.spec_value() as int);
                    assert(buffer@[hsize as int] == body[0]);
                    assert(buffer@[hsize as int + 1] == body[1]);
                    match result {
                        Ok(Packet::Unsuback(p2)) => {
                            crate::wire::lemma_pid_bytes_inj(p2, qpid);
                        },
                        _ => {},
                    }
                },
                _ => {},
            }
        }
    }
    let tail = buffer.split_off(span);
    buffer.clear();
    let mut t = tail;
    buffer.append(&mut t);
    match result {
        Ok(p) => Ok(Some(p)),
        Err(e) => Err(e),
    }
}

/// Reads the body of a packet that carries a bare packet identifier: it must
/// be exactly two bytes holding a non-zero identifier.
fn read_pid_body(remaining_len: usize, buf: &Vec<u8>, offset: &mut usize) -> (r: Result<
    crate::utils::Pid,
    Error,
>)
    requires
        *old(offset) + remaining_len <= buf@.len(),
    ensures
        ({
            let start = *old(offset) as int;
            let region = buf@.subrange(start, start + remaining_len as int);
            &&& (r matches Ok(p) ==> *final(offset) == start + remaining_len && region
                == crate::wire::pid_bytes(p) && p.spec_value() != 0)
            &&& (remaining_len == 2 && be16(buf@[start], buf@[start + 1]) != 0 ==> r is Ok)
            &&& (remaining_len != 2 ==> r == Result::<crate::utils::Pid, Error>::Err(
                Error::InvalidLength,
            ))
            &&& (remaining_len == 2 && be16(buf@[start], buf@[start + 1]) == 0 ==> r == Result::<
                crate::utils::Pid,
                Error,
            >::Err(Error::InvalidPid))
        }),
{
    let buf_len = buf.len();
    if remaining_len != 2 {
        return Err(Error::InvalidLength);
    }
    let end = *offset + 2;
    let r = crate::utils::Pid::from_buffer(buf, offset, end);
    proof {
        if r is Ok {
            assert(buf@.subrange(*old(offset) as int, *old(offset) + 2) == crate::wire::pid_bytes(
                r->Ok_0,
            ));
        }
    }
    r
}

} // verus!
