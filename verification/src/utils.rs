//! Primitive field types shared by every packet kind: the error taxonomy,
//! packet identifiers, quality-of-service levels, and the pairing of the two.

use vstd::prelude::*;

use crate::wire::{be16, len16, pid_bytes};

verus! {

/// Everything that can go wrong while encoding or decoding a packet.
///
/// "Not enough bytes buffered yet" is deliberately *not* an error: the
/// streaming entry points report it as `Ok(None)` instead.
#[derive(Debug, Clone, Copy, PartialEq, Eq, Structural)]
pub enum Error {
    /// A Remaining Length field exceeded the four-byte maximum, a length
    /// prefix pointed past the packet's declared end, a value was too large
    /// to fit its length prefix, or a payload did not line up exactly with
    /// the packet's declared length.
    InvalidLength,
    /// A packet identifier field held the reserved value zero.
    InvalidPid,
    /// A quality-of-service byte was outside the domain 0..=2.
    InvalidQos,
    /// A Connack return code byte was outside the domain 0..=5.
    InvalidConnectReturnCode,
    /// A Connect packet named a protocol other than MQTT 3.1.1 or 3.1.
    InvalidProtocol,
    /// The flag byte of a Connect packet set a reserved bit, or carried
    /// last-will options while the will flag itself was clear.
    InvalidConnectFlags,
    /// The acknowledge-flags byte of a Connack packet was neither 0 nor 1.
    InvalidConnackFlags,
    /// A length-prefixed string field held bytes that are not UTF-8.
    InvalidUtf8,
    /// The fixed header's packet-type nibble maps to none of the fourteen
    /// control packet kinds.
    UnknownPacketType,
    /// An output buffer or bounded sequence had no room left.
    WriteZero,
}

/// Quality-of-service level of a Publish or a subscription request.
///
/// On the wire this is a single byte that must be exactly 0, 1 or 2.
#[derive(Debug, Clone, Copy, PartialEq, Eq, Structural)]
pub enum QoS {
    AtMostOnce,
    AtLeastOnce,
    ExactlyOnce,
}

impl QoS {
    /// The wire byte of this level.
    pub open spec fn as_u8(self) -> u8 {
        match self {
            QoS::AtMostOnce => 0,
            QoS::AtLeastOnce => 1,
            QoS::ExactlyOnce => 2,
        }
    }

    /// Decodes a quality-of-service byte; exactly the bytes 0, 1 and 2 are
    /// accepted, and each re-encodes to the byte it came from.
    pub fn from_u8(byte: u8) -> (r: Result<QoS, Error>)
        ensures
            byte <= 2 <==> r is Ok,
            r matches Ok(q) ==> q.as_u8() == byte,
            byte > 2 ==> r == Result::<QoS, Error>::Err(Error::InvalidQos),
    {
        match byte {
            0 => Ok(QoS::AtMostOnce),
            1 => Ok(QoS::AtLeastOnce),
            2 => Ok(QoS::ExactlyOnce),
            _ => Err(Error::InvalidQos),
        }
    }

    /// Encodes this level as its wire byte.
    pub fn to_u8(self) -> (r: u8)
        ensures
            r == self.as_u8(),
    {
        match self {
            QoS::AtMostOnce => 0,
            QoS::AtLeastOnce => 1,
            QoS::ExactlyOnce => 2,
        }
    }
}

/// A 16-bit packet identifier correlating requests and acknowledgements.
///
/// The value zero is reserved by the protocol, so a `Pid` can only ever hold
/// a non-zero value: construction from zero is rejected.
#[derive(Debug, Clone, Copy, PartialEq, Eq, Hash, Structural)]
pub struct Pid {
    value: u16,
}

impl Pid {
    /// The identifier value this `Pid` carries.
    pub closed spec fn spec_value(self) -> u16 {
        self.value
    }

    /// Every reachable `Pid` holds a non-zero value.
    #[verifier::type_invariant]
    pub closed spec fn wf(self) -> bool {
        self.value != 0
    }

    /// Validated construction: rejects the reserved value zero.
    pub fn new(value: u16) -> (r: Result<Pid, Error>)
        ensures
            r is Ok <==> value != 0,
            r matches Ok(p) ==> p.spec_value() == value,
            value == 0 ==> r == Result::<Pid, Error>::Err(Error::InvalidPid),
    {
        if value == 0 {
            Err(Error::InvalidPid)
        } else {
            Ok(Pid { value })
        }
    }

    /// The identifier as a plain integer; never zero.
    pub fn value(self) -> (r: u16)
        ensures
            r == self.spec_value(),
            r != 0,
    {
        proof {
            use_type_invariant(self);
        }
        self.value
    }

    /// Reads a 2-byte big-endian identifier field, rejecting the reserved
    /// value zero, and never reading at or past `end`.
    pub fn from_buffer(buf: &Vec<u8>, offset: &mut usize, end: usize) -> (r: Result<Pid, Error>)
        requires
            *old(offset) <= end <= buf@.len(),
        ensures
            ({
                let start = *old(offset) as int;
                if start + 2 > end {
                    r == Result::<Pid, Error>::Err(Error::InvalidLength)
                } else if be16(buf@[start], buf@[start + 1]) == 0 {
                    r == Result::<Pid, Error>::Err(Error::InvalidPid)
                } else {
                    r matches Ok(p) && p.spec_value() as int == be16(buf@[start], buf@[start + 1])
                        && *final(offset) == start + 2 && buf@.subrange(start, start + 2)
                        == pid_bytes(p)
                }
            }),
    {
        let start = *offset;
        if end - start < 2 {
            return Err(Error::InvalidLength);
        }
        let hi = buf[start];
        let lo = buf[start + 1];
        let value: u16 = (hi as u16) * 256 + (lo as u16);
        if value == 0 {
            return Err(Error::InvalidPid);
        }
        *offset = start + 2;
        let p = Pid { value };
        proof {
            assert(value as int / 256 == hi as int && value as int % 256 == lo as int)
                by (nonlinear_arith)
                requires
                    value as int == hi as int * 256 + lo as int,
                    0 <= lo < 256,
                    0 <= hi < 256,
            ;
            assert(buf@.subrange(start as int, start as int + 2) =~= pid_bytes(p));
        }
        Ok(p)
    }

    /// Appends this identifier's 2-byte big-endian encoding.
    pub fn to_buffer(self, out: &mut Vec<u8>)
        ensures
            final(out)@ == old(out)@ + pid_bytes(self),
    {
        out.push((self.value / 256) as u8);
        out.push((self.value % 256) as u8);
        proof {
            assert(final(out)@ =~= old(out)@ + pid_bytes(self));
        }
    }
}

/// Two quality-of-service levels with the same wire byte are the same level.
pub proof fn lemma_qos_byte_inj(a: QoS, b: QoS)
    requires
        a.as_u8() == b.as_u8(),
    ensures
        a == b,
{
}

/// Two identifiers with the same value are the same identifier.
pub proof fn lemma_pid_field_eq(a: Pid, b: Pid)
    requires
        a.spec_value() == b.spec_value(),
    ensures
        a == b,
{
}

/// A quality-of-service level together with the packet identifier that the
/// wire format attaches to it.
///
/// A Publish packet carries an identifier exactly when its level is
/// `AtLeastOnce` or `ExactlyOnce`; making the pairing a single variant type
/// turns that wire rule into a structural invariant.
#[derive(Debug, Clone, Copy, PartialEq, Eq, Structural)]
pub enum QosPid {
    AtMostOnce,
    AtLeastOnce(Pid),
    ExactlyOnce(Pid),
}

impl QosPid {
    /// The quality-of-service level, with the identifier stripped.
    pub open spec fn spec_qos(self) -> QoS {
        match self {
            QosPid::AtMostOnce => QoS::AtMostOnce,
            QosPid::AtLeastOnce(_) => QoS::AtLeastOnce,
            QosPid::ExactlyOnce(_) => QoS::ExactlyOnce,
        }
    }

    /// The quality-of-service level, with the identifier stripped.
    pub fn qos(self) -> (r: QoS)
        ensures
            r == self.spec_qos(),
    {
        match self {
            QosPid::AtMostOnce => QoS::AtMostOnce,
            QosPid::AtLeastOnce(_) => QoS::AtLeastOnce,
            QosPid::ExactlyOnce(_) => QoS::ExactlyOnce,
        }
    }
}

} // verus!
