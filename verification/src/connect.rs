//! The Connect and Connack packet payloads, their field types, and codecs.

use vstd::prelude::*;

use crate::decoder::{bin_readable, read_bin, read_str, str_readable};
use crate::encoder::{write_bin, write_frame, write_str, write_u16};
use crate::packet::Packet;
use crate::utils::{Error, QoS};
use crate::wire::{
    be16, bin_bytes, connack_body, connect_body, connect_flags, encodable, len16,
    lemma_bin_at, lemma_connect_flags_decomp, lemma_len16_be16, lemma_split_region, lemma_str_at,
    protocol_bytes, same_connect, str_bytes, valid_bin, valid_packet, valid_string, wire,
};

verus! {

/// Protocol name and level announced at the start of a Connect packet.
#[derive(Debug, Clone, Copy, PartialEq, Eq, Structural)]
pub enum Protocol {
    /// The older protocol identifier `MQIsdp`, level 3 (MQTT 3.1).
    MQIsdp,
    /// The protocol identifier `MQTT`, level 4 (MQTT 3.1.1).
    MQTT311,
}

/// Connect return code carried by a Connack packet: one accepted outcome and
/// five refusal reasons, wire bytes 0 through 5.
#[derive(Debug, Clone, Copy, PartialEq, Eq, Structural)]
pub enum ConnectReturnCode {
    Accepted,
    RefusedProtocolVersion,
    RefusedIdentifierRejected,
    ServerUnavailable,
    BadUsernamePassword,
    NotAuthorized,
}

impl ConnectReturnCode {
    /// The wire byte of this return code.
    pub open spec fn as_u8(self) -> u8 {
        match self {
            ConnectReturnCode::Accepted => 0,
            ConnectReturnCode::RefusedProtocolVersion => 1,
            ConnectReturnCode::RefusedIdentifierRejected => 2,
            ConnectReturnCode::ServerUnavailable => 3,
            ConnectReturnCode::BadUsernamePassword => 4,
            ConnectReturnCode::NotAuthorized => 5,
        }
    }

    /// Decodes a return code byte; exactly the bytes 0 through 5 are
    /// accepted, and each re-encodes to the byte it came from.
    pub fn from_u8(byte: u8) -> (r: Result<ConnectReturnCode, Error>)
        ensures
            byte <= 5 <==> r is Ok,
            r matches Ok(c) ==> c.as_u8() == byte,
            byte > 5 ==> r == Result::<ConnectReturnCode, Error>::Err(
                Error::InvalidConnectReturnCode,
            ),
    {
        match byte {
            0 => Ok(ConnectReturnCode::Accepted),
            1 => Ok(ConnectReturnCode::RefusedProtocolVersion),
            2 => Ok(ConnectReturnCode::RefusedIdentifierRejected),
            3 => Ok(ConnectReturnCode::ServerUnavailable),
            4 => Ok(ConnectReturnCode::BadUsernamePassword),
            5 => Ok(ConnectReturnCode::NotAuthorized),
            _ => Err(Error::InvalidConnectReturnCode),
        }
    }

    /// Encodes this return code as its wire byte.
    pub fn to_u8(self) -> (r: u8)
        ensures
            r == self.as_u8(),
    {
        match self {
            ConnectReturnCode::Accepted => 0,
            ConnectReturnCode::RefusedProtocolVersion => 1,
            ConnectReturnCode::RefusedIdentifierRejected => 2,
            ConnectReturnCode::ServerUnavailable => 3,
            ConnectReturnCode::BadUsernamePassword => 4,
            ConnectReturnCode::NotAuthorized => 5,
        }
    }
}

/// Two return codes with the same wire byte are the same return code.
proof fn lemma_crc_byte_inj(a: ConnectReturnCode, b: ConnectReturnCode)
    requires
        a.as_u8() == b.as_u8(),
    ensures
        a == b,
{
}

/// Message published on the client's behalf when its connection drops.
#[derive(Debug, Clone, PartialEq)]
pub struct LastWill {
    pub topic: String,
    pub message: Vec<u8>,
    pub qos: QoS,
    pub retain: bool,
}

/// Connect packet payload (MQTT 3.1).
#[derive(Debug, Clone, PartialEq)]
pub struct Connect {
    pub protocol: Protocol,
    pub keep_alive: u16,
    pub client_id: String,
    pub clean_session: bool,
    pub last_will: Option<LastWill>,
    pub username: Option<String>,
    pub password: Option<Vec<u8>>,
}

/// Connack packet payload (MQTT 3.2).
#[derive(Debug, Clone, Copy, PartialEq, Eq, Structural)]
pub struct Connack {
    pub session_present: bool,
    pub code: ConnectReturnCode,
}

impl Connack {
    /// Reads a Connack body: one acknowledge-flags byte that must be 0 or 1,
    /// then the return code byte.
    pub(crate) fn from_buffer(remaining_len: usize, buf: &Vec<u8>, offset: &mut usize) -> (r:
        Result<Connack, Error>)
        requires
            *old(offset) + remaining_len <= buf@.len(),
        ensures
            ({
                let start = *old(offset) as int;
                let region = buf@.subrange(start, start + remaining_len as int);
                &&& (r matches Ok(c) ==> *final(offset) == start + remaining_len && region
                    == connack_body(c) && valid_packet(Packet::Connack(c)))
                &&& (forall|q: Connack|
                    region == #[trigger] connack_body(q) ==> (r matches Ok(c) && c == q))
            }),
    {
        let ghost start = *old(offset) as int;
        let ghost region = buf@.subrange(start, start + remaining_len as int);
        let buf_len = buf.len();
        if remaining_len != 2 {
            proof {
                assert forall|q: Connack| region == #[trigger] connack_body(q) implies false by {
                    assert(connack_body(q).len() == 2);
                    assert(region.len() == remaining_len as int);
                }
            }
            return Err(Error::InvalidLength);
        }
        let sp = buf[*offset];
        if sp > 1 {
            proof {
                assert forall|q: Connack| region == #[trigger] connack_body(q) implies false by {
                    assert(region[0] == connack_body(q)[0]);
                }
            }
            return Err(Error::InvalidConnackFlags);
        }
        let code = match ConnectReturnCode::from_u8(buf[*offset + 1]) {
            Ok(c) => c,
            Err(e) => {
                proof {
                    assert forall|q: Connack| region == #[trigger] connack_body(
                        q,
                    ) implies false by {
                        assert(region[1] == connack_body(q)[1]);
                        assert(connack_body(q)[1] == q.code.as_u8());
                    }
                }
                return Err(e);
            },
        };
        *offset = *offset + 2;
        let c = Connack { session_present: sp == 1, code };
        proof {
            assert(region =~= connack_body(c));
            assert forall|q: Connack| region == #[trigger] connack_body(q) implies c == q by {
                assert(region[0] == connack_body(q)[0]);
                assert(region[1] == connack_body(q)[1]);
                lemma_crc_byte_inj(c.code, q.code);
            }
        }
        Ok(c)
    }

    /// Appends this packet's complete wire encoding and returns how many
    /// bytes were written.  A Connack always fits, so this never fails.
    pub(crate) fn to_buffer(&self, out: &mut Vec<u8>) -> (r: Result<usize, Error>)
        ensures
            r matches Ok(n) && final(out)@ == old(out)@ + wire(Packet::Connack(*self)) && n
                == wire(Packet::Connack(*self)).len(),
    {
        let mut body: Vec<u8> = Vec::new();
        body.push(if self.session_present {
            1
        } else {
            0
        });
        body.push(self.code.to_u8());
        proof {
            assert(body@ =~= connack_body(*self));
        }
        let r = write_frame(0x20, body, out);
        proof {
            assert(final(out)@ =~= old(out)@ + wire(Packet::Connack(*self)));
        }
        r
    }
}

/// Where each field of a Connect body lies, given that a buffer region holds
/// exactly that body.
proof fn lemma_connect_layout(s: Seq<u8>, start: int, rl: int, q: Connect)
    requires
        0 <= start,
        start + rl <= s.len(),
        valid_packet(Packet::Connect(q)),
        s.subrange(start, start + rl) == connect_body(q),
        rl == connect_body(q).len(),
    ensures
        ({
            let a = protocol_bytes(q.protocol);
            let d = str_bytes(q.client_id@);
            let e = (match q.last_will {
                Some(w) => str_bytes(w.topic@) + bin_bytes(w.message@),
                None => Seq::<u8>::empty(),
            });
            let f = (match q.username {
                Some(u) => str_bytes(u@),
                None => Seq::<u8>::empty(),
            });
            let g = (match q.password {
                Some(pw) => bin_bytes(pw@),
                None => Seq::<u8>::empty(),
            });
            let p0 = start + a.len();
            let p1 = p0 + 1;
            let p2 = p1 + 2;
            let p3 = p2 + d.len();
            let p4 = p3 + e.len();
            let p5 = p4 + f.len();
            &&& rl == a.len() + 3 + d.len() + e.len() + f.len() + g.len()
            &&& s.subrange(start, p0) == a
            &&& s[p0] == connect_flags(q) as u8
            &&& s.subrange(p1, p2) == len16(q.keep_alive as int)
            &&& s.subrange(p2, p3) == d
            &&& s.subrange(p3, p4) == e
            &&& (q.last_will matches Some(w) ==> s.subrange(
                p3,
                p3 + str_bytes(w.topic@).len() as int,
            ) == str_bytes(w.topic@) && s.subrange(p3 + str_bytes(w.topic@).len(), p4)
                == bin_bytes(w.message@))
            &&& s.subrange(p4, p5) == f
            &&& s.subrange(p5, start + rl) == g
        }),
{
    let a = protocol_bytes(q.protocol);
    let b = seq![connect_flags(q) as u8];
    let c = len16(q.keep_alive as int);
    let d = str_bytes(q.client_id@);
    let e = (match q.last_will {
        Some(w) => str_bytes(w.topic@) + bin_bytes(w.message@),
        None => Seq::<u8>::empty(),
    });
    let f = (match q.username {
        Some(u) => str_bytes(u@),
        None => Seq::<u8>::empty(),
    });
    let g = (match q.password {
        Some(pw) => bin_bytes(pw@),
        None => Seq::<u8>::empty(),
    });
    lemma_split_region(s, start, a + b + c + d + e + f, g);
    lemma_split_region(s, start, a + b + c + d + e, f);
    lemma_split_region(s, start, a + b + c + d, e);
    lemma_split_region(s, start, a + b + c, d);
    lemma_split_region(s, start, a + b, c);
    lemma_split_region(s, start, a, b);
    let p0 = start + a.len();
    assert(s[p0] == s.subrange(p0, p0 + 1)[0]);
    match q.last_will {
        Some(w) => {
            lemma_split_region(
                s,
                start + a.len() + 3 + d.len(),
                str_bytes(w.topic@),
                bin_bytes(w.message@),
            );
        },
        None => {},
    }
}

/// Everything a parser learns about the bytes of a Connect body: the
/// positions of all fields, what every length prefix reads back as, and
/// that every string field is valid UTF-8 decoding to the original
/// characters.
#[verifier::rlimit(100)]
#[verifier::spinoff_prover]
proof fn lemma_connect_fields(s: Seq<u8>, start: int, rl: int, q: Connect)
    requires
        0 <= start,
        start + rl <= s.len(),
        valid_packet(Packet::Connect(q)),
        s.subrange(start, start + rl) == connect_body(q),
        rl == connect_body(q).len(),
    ensures
        ({
            let a = protocol_bytes(q.protocol);
            let cf = connect_flags(q);
            let ec = vstd::utf8::encode_utf8(q.client_id@);
            let p0 = start + a.len();
            let p1 = p0 + 1;
            let p2 = p1 + 2;
            let p3 = p2 + 2 + ec.len();
            let wlen = (match q.last_will {
                Some(w) => 4 + vstd::utf8::encode_utf8(w.topic@).len() + w.message@.len() as int,
                None => 0int,
            });
            let p4 = p3 + wlen;
            let ulen = (match q.username {
                Some(u) => 2 + vstd::utf8::encode_utf8(u@).len() as int,
                None => 0int,
            });
            let p5 = p4 + ulen;
            let plen2 = (match q.password {
                Some(pw) => 2 + pw@.len() as int,
                None => 0int,
            });
            &&& rl == a.len() + 3 + 2 + ec.len() + wlen + ulen + plen2
            &&& 7 <= a.len() <= 9
            &&& s.subrange(start, p0) == a
            &&& (q.protocol is MQTT311 ==> a == seq![0u8, 4u8, 77u8, 81u8, 84u8, 84u8, 4u8])
            &&& (q.protocol is MQIsdp ==> a == seq![
                0u8,
                6u8,
                77u8,
                81u8,
                73u8,
                115u8,
                100u8,
                112u8,
                3u8,
            ])
            &&& s[p0] == cf as u8
            &&& 0 <= cf <= 254 && cf % 2 == 0
            &&& cf / 128 == (if q.username is Some {
                1int
            } else {
                0int
            })
            &&& (cf / 64) % 2 == (if q.password is Some {
                1int
            } else {
                0int
            })
            &&& (cf / 4) % 2 == (if q.last_will is Some {
                1int
            } else {
                0int
            })
            &&& (cf / 8) % 4 == (match q.last_will {
                Some(w) => w.qos.as_u8() as int,
                None => 0int,
            })
            &&& (cf / 32) % 2 == (match q.last_will {
                Some(w) => if w.retain {
                    1int
                } else {
                    0int
                },
                None => 0int,
            })
            &&& (cf / 2) % 2 == (if q.clean_session {
                1int
            } else {
                0int
            })
            &&& be16(s[p1], s[p1 + 1]) == q.keep_alive
            &&& be16(s[p2], s[p2 + 1]) == ec.len()
            &&& s.subrange(p2, p3) == str_bytes(q.client_id@)
            &&& vstd::utf8::valid_utf8(s.subrange(p2 + 2, p3))
            &&& vstd::utf8::decode_utf8(s.subrange(p2 + 2, p3)) == q.client_id@
            &&& (q.last_will matches Some(w) ==> ({
                let et = vstd::utf8::encode_utf8(w.topic@);
                let pt = p3 + 2 + et.len();
                &&& be16(s[p3], s[p3 + 1]) == et.len()
                &&& s.subrange(p3, pt) == str_bytes(w.topic@)
                &&& vstd::utf8::valid_utf8(s.subrange(p3 + 2, pt))
                &&& vstd::utf8::decode_utf8(s.subrange(p3 + 2, pt)) == w.topic@
                &&& be16(s[pt], s[pt + 1]) == w.message@.len()
                &&& s.subrange(pt, p4) == bin_bytes(w.message@)
                &&& s.subrange(pt + 2, p4) == w.message@
            }))
            &&& (q.username matches Some(u) ==> ({
                let eu = vstd::utf8::encode_utf8(u@);
                &&& s.subrange(p4, p5) == str_bytes(u@)
                &&& be16(s[p4], s[p4 + 1]) == eu.len()
                &&& vstd::utf8::valid_utf8(s.subrange(p4 + 2, p5))
                &&& vstd::utf8::decode_utf8(s.subrange(p4 + 2, p5)) == u@
            }))
            &&& (q.password matches Some(pw) ==> be16(s[p5], s[p5 + 1]) == pw@.len()
                && s.subrange(p5, start + rl) == bin_bytes(pw@) && s.subrange(
                p5 + 2,
                start + rl,
            ) == pw@)
        }),
{
    lemma_connect_layout(s, start, rl, q);
    lemma_connect_flags_decomp(q);
    let a = protocol_bytes(q.protocol);
    let ec = vstd::utf8::encode_utf8(q.client_id@);
    let p0 = start + a.len();
    let p1 = p0 + 1;
    let p2 = p1 + 2;
    let p3 = p2 + 2 + ec.len();
    lemma_len16_be16(q.keep_alive as int);
    assert(s[p1] == s.subrange(p1, p1 + 2)[0]);
    assert(s[p1 + 1] == s.subrange(p1, p1 + 2)[1]);
    lemma_str_at(s, p2, q.client_id@);
    match q.last_will {
        Some(w) => {
            let et = vstd::utf8::encode_utf8(w.topic@);
            let pt = p3 + 2 + et.len();
            lemma_str_at(s, p3, w.topic@);
            lemma_bin_at(s, pt, w.message@);
        },
        None => {},
    }
    let p4 = p3 + (match q.last_will {
        Some(w) => 4 + vstd::utf8::encode_utf8(w.topic@).len() + w.message@.len() as int,
        None => 0int,
    });
    match q.username {
        Some(u) => {
            lemma_str_at(s, p4, u@);
        },
        None => {},
    }
    let p5 = p4 + (match q.username {
        Some(u) => 2 + vstd::utf8::encode_utf8(u@).len() as int,
        None => 0int,
    });
    match q.password {
        Some(pw) => {
            lemma_bin_at(s, p5, pw@);
        },
        None => {},
    }
}

/// Cheap size facts about a Connect body region: enough to refute a parse
/// that ran out of bytes before the variable-length fields.
proof fn lemma_connect_sizes(s: Seq<u8>, start: int, rl: int, q: Connect)
    requires
        0 <= start,
        start + rl <= s.len(),
        valid_packet(Packet::Connect(q)),
        s.subrange(start, start + rl) == connect_body(q),
        rl == connect_body(q).len(),
    ensures
        ({
            let a = protocol_bytes(q.protocol);
            &&& rl >= a.len() + 5
            &&& 7 <= a.len() <= 9
            &&& s.subrange(start, start + a.len() as int) == a
            &&& (q.protocol is MQTT311 ==> a == seq![0u8, 4u8, 77u8, 81u8, 84u8, 84u8, 4u8])
            &&& (q.protocol is MQIsdp ==> a == seq![
                0u8,
                6u8,
                77u8,
                81u8,
                73u8,
                115u8,
                100u8,
                112u8,
                3u8,
            ])
            &&& s[start + a.len()] == connect_flags(q) as u8
        }),
{
    lemma_connect_layout(s, start, rl, q);
}

/// Two valid Connect payloads with the same body bytes hold the same
/// fields.
#[verifier::rlimit(100)]
#[verifier::spinoff_prover]
proof fn lemma_connect_body_inj(c: Connect, q: Connect)
    requires
        valid_packet(Packet::Connect(c)),
        valid_packet(Packet::Connect(q)),
        connect_body(c) == connect_body(q),
    ensures
        same_connect(c, q),
{
    let s = connect_body(c);
    assert(s.subrange(0, s.len() as int) =~= s);
    assert(s.subrange(0, s.len() as int) == connect_body(q));
    lemma_connect_layout(s, 0, s.len() as int, c);
    lemma_connect_layout(s, 0, s.len() as int, q);
    assert(s[1] == protocol_bytes(c.protocol)[1]);
    assert(s[1] == protocol_bytes(q.protocol)[1]);
    assert(c.protocol == q.protocol);
    let p0 = protocol_bytes(c.protocol).len() as int;
    let p1 = p0 + 1;
    let p2 = p1 + 2;
    assert(s[p0] == connect_flags(c) as u8);
    assert(s[p0] == connect_flags(q) as u8);
    lemma_connect_flags_decomp(c);
    lemma_connect_flags_decomp(q);
    assert(connect_flags(c) == connect_flags(q));
    lemma_len16_be16(c.keep_alive as int);
    lemma_len16_be16(q.keep_alive as int);
    assert(s[p1] == s.subrange(p1, p2)[0]);
    assert(s[p1 + 1] == s.subrange(p1, p2)[1]);
    assert(c.keep_alive == q.keep_alive);
    crate::wire::lemma_str_bytes_prefix_eq(s, p2, c.client_id@, q.client_id@);
    let p3 = p2 + str_bytes(c.client_id@).len() as int;
    match (c.last_will, q.last_will) {
        (Some(cw), Some(w)) => {
            crate::wire::lemma_str_bytes_prefix_eq(s, p3, cw.topic@, w.topic@);
            let pt = p3 + str_bytes(cw.topic@).len() as int;
            crate::wire::lemma_bin_bytes_prefix_eq(s, pt, cw.message@, w.message@);
            crate::utils::lemma_qos_byte_inj(cw.qos, w.qos);
        },
        (None, None) => {},
        _ => {
            assert(false);
        },
    }
    let p4 = p3 + (match c.last_will {
        Some(cw) => str_bytes(cw.topic@).len() + bin_bytes(cw.message@).len() as int,
        None => 0int,
    });
    match (c.username, q.username) {
        (Some(cu), Some(u)) => {
            crate::wire::lemma_str_bytes_prefix_eq(s, p4, cu@, u@);
        },
        (None, None) => {},
        _ => {
            assert(false);
        },
    }
    let p5 = p4 + (match c.username {
        Some(cu) => str_bytes(cu@).len() as int,
        None => 0int,
    });
    match (c.password, q.password) {
        (Some(cp), Some(pw)) => {
            crate::wire::lemma_bin_bytes_prefix_eq(s, p5, cp@, pw@);
        },
        (None, None) => {},
        _ => {
            assert(false);
        },
    }
}

/// A valid Connect body aligns with whatever the parser has already
/// consumed: its protocol and flag byte are the ones sitting in the buffer.
#[verifier::rlimit(100)]
#[verifier::spinoff_prover]
proof fn lemma_connect_align(
    s: Seq<u8>,
    start: int,
    rl: int,
    q: Connect,
    protocol: Protocol,
    fbyte: u8,
)
    requires
        0 <= start,
        start + rl <= s.len(),
        valid_packet(Packet::Connect(q)),
        s.subrange(start, start + rl) == connect_body(q),
        rl == connect_body(q).len(),
        s.subrange(start, start + protocol_bytes(protocol).len() as int) == protocol_bytes(
            protocol,
        ),
        s[start + protocol_bytes(protocol).len()] == fbyte,
    ensures
        q.protocol == protocol,
        connect_flags(q) == fbyte as int,
{
    lemma_connect_fields(s, start, rl, q);
    assert(s[start + 1] == protocol_bytes(q.protocol)[1]);
    assert(s.subrange(start, start + protocol_bytes(protocol).len() as int)[1] == protocol_bytes(
        protocol,
    )[1]);
    assert(q.protocol == protocol);
}

/// In a valid Connect body the client identifier field is readable where
/// the parser expects it.
#[verifier::rlimit(100)]
#[verifier::spinoff_prover]
proof fn lemma_connect_cid_readable(
    s: Seq<u8>,
    start: int,
    rl: int,
    q: Connect,
    protocol: Protocol,
    fbyte: u8,
)
    requires
        0 <= start,
        start + rl <= s.len(),
        valid_packet(Packet::Connect(q)),
        s.subrange(start, start + rl) == connect_body(q),
        rl == connect_body(q).len(),
        s.subrange(start, start + protocol_bytes(protocol).len() as int) == protocol_bytes(
            protocol,
        ),
        s[start + protocol_bytes(protocol).len()] == fbyte,
    ensures
        str_readable(s, start + protocol_bytes(protocol).len() + 3, start + rl),
{
    lemma_connect_align(s, start, rl, q, protocol, fbyte);
    lemma_connect_fields(s, start, rl, q);
    let p2 = start + protocol_bytes(q.protocol).len() + 3;
    assert(str_readable(s, p2, start + rl));
}

/// In a valid Connect body that announces a last-will, the will topic field
/// is readable where the parser expects it.
#[verifier::rlimit(100)]
#[verifier::spinoff_prover]
proof fn lemma_connect_will_topic_readable(
    s: Seq<u8>,
    start: int,
    rl: int,
    q: Connect,
    protocol: Protocol,
    fbyte: u8,
    cv: Seq<char>,
    pos: int,
)
    requires
        0 <= start,
        start + rl <= s.len(),
        valid_packet(Packet::Connect(q)),
        s.subrange(start, start + rl) == connect_body(q),
        rl == connect_body(q).len(),
        s.subrange(start, start + protocol_bytes(protocol).len() as int) == protocol_bytes(
            protocol,
        ),
        s[start + protocol_bytes(protocol).len()] == fbyte,
        valid_string(cv),
        s.subrange(
            start + protocol_bytes(protocol).len() + 3,
            start + protocol_bytes(protocol).len() + 3 + str_bytes(cv).len() as int,
        ) == str_bytes(cv),
        pos == start + protocol_bytes(protocol).len() + 3 + str_bytes(cv).len(),
        pos <= start + rl,
        (fbyte as int / 4) % 2 == 1,
    ensures
        str_readable(s, pos, start + rl),
{
    lemma_connect_align(s, start, rl, q, protocol, fbyte);
    lemma_connect_fields(s, start, rl, q);
    let p2 = start + protocol_bytes(q.protocol).len() + 3;
    crate::wire::lemma_str_bytes_prefix_eq(s, p2, cv, q.client_id@);
    match q.last_will {
        Some(w) => {
            assert(str_readable(s, pos, start + rl));
        },
        None => {
            assert(false);
        },
    }
}

/// In a valid Connect body that announces a last-will, the will message
/// field is readable where the parser expects it.
#[verifier::rlimit(100)]
#[verifier::spinoff_prover]
proof fn lemma_connect_will_msg_readable(
    s: Seq<u8>,
    start: int,
    rl: int,
    q: Connect,
    protocol: Protocol,
    fbyte: u8,
    cv: Seq<char>,
    tv: Seq<char>,
    pos: int,
)
    requires
        0 <= start,
        start + rl <= s.len(),
        valid_packet(Packet::Connect(q)),
        s.subrange(start, start + rl) == connect_body(q),
        rl == connect_body(q).len(),
        s.subrange(start, start + protocol_bytes(protocol).len() as int) == protocol_bytes(
            protocol,
        ),
        s[start + protocol_bytes(protocol).len()] == fbyte,
        valid_string(cv),
        valid_string(tv),
        s.subrange(
            start + protocol_bytes(protocol).len() + 3,
            start + protocol_bytes(protocol).len() + 3 + str_bytes(cv).len() as int,
        ) == str_bytes(cv),
        s.subrange(
            start + protocol_bytes(protocol).len() + 3 + str_bytes(cv).len(),
            start + protocol_bytes(protocol).len() + 3 + str_bytes(cv).len() + str_bytes(
                tv,
            ).len() as int,
        ) == str_bytes(tv),
        pos == start + protocol_bytes(protocol).len() + 3 + str_bytes(cv).len() + str_bytes(
            tv,
        ).len(),
        pos <= start + rl,
        (fbyte as int / 4) % 2 == 1,
    ensures
        bin_readable(s, pos, start + rl),
{
    lemma_connect_align(s, start, rl, q, protocol, fbyte);
    lemma_connect_fields(s, start, rl, q);
    let p2 = start + protocol_bytes(q.protocol).len() + 3;
    crate::wire::lemma_str_bytes_prefix_eq(s, p2, cv, q.client_id@);
    let p3 = p2 + str_bytes(q.client_id@).len() as int;
    match q.last_will {
        Some(w) => {
            crate::wire::lemma_str_bytes_prefix_eq(s, p3, tv, w.topic@);
            assert(bin_readable(s, pos, start + rl));
        },
        None => {
            assert(false);
        },
    }
}

/// In a valid Connect body that announces a username, the username field is
/// readable where the parser expects it.
#[verifier::rlimit(100)]
#[verifier::spinoff_prover]
proof fn lemma_connect_user_readable(
    s: Seq<u8>,
    start: int,
    rl: int,
    q: Connect,
    protocol: Protocol,
    fbyte: u8,
    cv: Seq<char>,
    will: Option<(Seq<char>, Seq<u8>)>,
    pos: int,
)
    requires
        0 <= start,
        start + rl <= s.len(),
        valid_packet(Packet::Connect(q)),
        s.subrange(start, start + rl) == connect_body(q),
        rl == connect_body(q).len(),
        s.subrange(start, start + protocol_bytes(protocol).len() as int) == protocol_bytes(
            protocol,
        ),
        s[start + protocol_bytes(protocol).len()] == fbyte,
        valid_string(cv),
        s.subrange(
            start + protocol_bytes(protocol).len() + 3,
            start + protocol_bytes(protocol).len() + 3 + str_bytes(cv).len() as int,
        ) == str_bytes(cv),
        will is Some <==> (fbyte as int / 4) % 2 == 1,
        (will matches Some(wv) ==> valid_string(wv.0) && valid_bin(wv.1) && s.subrange(
            start + protocol_bytes(protocol).len() + 3 + str_bytes(cv).len(),
            start + protocol_bytes(protocol).len() + 3 + str_bytes(cv).len() + str_bytes(
                wv.0,
            ).len() as int,
        ) == str_bytes(wv.0) && s.subrange(
            start + protocol_bytes(protocol).len() + 3 + str_bytes(cv).len() + str_bytes(
                wv.0,
            ).len(),
            pos,
        ) == bin_bytes(wv.1) && pos == start + protocol_bytes(protocol).len() + 3 + str_bytes(
            cv,
        ).len() + str_bytes(wv.0).len() + bin_bytes(wv.1).len()),
        (will is None ==> pos == start + protocol_bytes(protocol).len() + 3 + str_bytes(cv).len()),
        pos <= start + rl,
        fbyte as int / 128 == 1,
    ensures
        str_readable(s, pos, start + rl),
{
    lemma_connect_align(s, start, rl, q, protocol, fbyte);
    lemma_connect_fields(s, start, rl, q);
    let p2 = start + protocol_bytes(q.protocol).len() + 3;
    crate::wire::lemma_str_bytes_prefix_eq(s, p2, cv, q.client_id@);
    let p3 = p2 + str_bytes(q.client_id@).len() as int;
    match (will, q.last_will) {
        (Some(wv), Some(w)) => {
            crate::wire::lemma_str_bytes_prefix_eq(s, p3, wv.0, w.topic@);
            let pt = p3 + str_bytes(w.topic@).len() as int;
            crate::wire::lemma_bin_bytes_prefix_eq(s, pt, wv.1, w.message@);
        },
        (None, None) => {},
        _ => {
            assert(false);
        },
    }
    match q.username {
        Some(u) => {
            assert(str_readable(s, pos, start + rl));
        },
        None => {
            assert(false);
        },
    }
}

/// In a valid Connect body that announces a password, the password field is
/// readable where the parser expects it.
#[verifier::rlimit(100)]
#[verifier::spinoff_prover]
proof fn lemma_connect_pass_readable(
    s: Seq<u8>,
    start: int,
    rl: int,
    q: Connect,
    protocol: Protocol,
    fbyte: u8,
    cv: Seq<char>,
    will: Option<(Seq<char>, Seq<u8>)>,
    user: Option<Seq<char>>,
    pos: int,
)
    requires
        0 <= start,
        start + rl <= s.len(),
        valid_packet(Packet::Connect(q)),
        s.subrange(start, start + rl) == connect_body(q),
        rl == connect_body(q).len(),
        s.subrange(start, start + protocol_bytes(protocol).len() as int) == protocol_bytes(
            protocol,
        ),
        s[start + protocol_bytes(protocol).len()] == fbyte,
        valid_string(cv),
        s.subrange(
            start + protocol_bytes(protocol).len() + 3,
            start + protocol_bytes(protocol).len() + 3 + str_bytes(cv).len() as int,
        ) == str_bytes(cv),
        will is Some <==> (fbyte as int / 4) % 2 == 1,
        (will matches Some(wv) ==> valid_string(wv.0) && valid_bin(wv.1) && s.subrange(
            start + protocol_bytes(protocol).len() + 3 + str_bytes(cv).len(),
            start + protocol_bytes(protocol).len() + 3 + str_bytes(cv).len() + str_bytes(
                wv.0,
            ).len() as int,
        ) == str_bytes(wv.0) && s.subrange(
            start + protocol_bytes(protocol).len() + 3 + str_bytes(cv).len() + str_bytes(
                wv.0,
            ).len(),
            start + protocol_bytes(protocol).len() + 3 + str_bytes(cv).len() + str_bytes(
                wv.0,
            ).len() + bin_bytes(wv.1).len() as int,
        ) == bin_bytes(wv.1)),
        ({
            let pwill = start + protocol_bytes(protocol).len() + 3 + str_bytes(cv).len();
            let puser = pwill + (match will {
                Some(wv) => str_bytes(wv.0).len() + bin_bytes(wv.1).len() as int,
                None => 0int,
            });
            &&& (user is Some <==> fbyte as int / 128 == 1)
            &&& (user matches Some(uv) ==> valid_string(uv) && s.subrange(
                puser,
                puser + str_bytes(uv).len() as int,
            ) == str_bytes(uv) && pos == puser + str_bytes(uv).len())
            &&& (user is None ==> pos == puser)
        }),
        pos <= start + rl,
        (fbyte as int / 64) % 2 == 1,
    ensures
        bin_readable(s, pos, start + rl),
{
    lemma_connect_align(s, start, rl, q, protocol, fbyte);
    lemma_connect_fields(s, start, rl, q);
    let p2 = start + protocol_bytes(q.protocol).len() + 3;
    crate::wire::lemma_str_bytes_prefix_eq(s, p2, cv, q.client_id@);
    let p3 = p2 + str_bytes(q.client_id@).len() as int;
    match (will, q.last_will) {
        (Some(wv), Some(w)) => {
            crate::wire::lemma_str_bytes_prefix_eq(s, p3, wv.0, w.topic@);
            let pt = p3 + str_bytes(w.topic@).len() as int;
            crate::wire::lemma_bin_bytes_prefix_eq(s, pt, wv.1, w.message@);
        },
        (None, None) => {},
        _ => {
            assert(false);
        },
    }
    let p4 = p3 + (match q.last_will {
        Some(w) => str_bytes(w.topic@).len() + bin_bytes(w.message@).len() as int,
        None => 0int,
    });
    match (user, q.username) {
        (Some(uv), Some(u)) => {
            crate::wire::lemma_str_bytes_prefix_eq(s, p4, uv, u@);
        },
        (None, None) => {},
        _ => {
            assert(false);
        },
    }
    match q.password {
        Some(pw) => {
            assert(bin_readable(s, pos, start + rl));
        },
        None => {
            assert(false);
        },
    }
}

/// A valid Connect body is used up exactly: once every announced field has
/// been read, the cursor stands at the region's end.
#[verifier::rlimit(100)]
#[verifier::spinoff_prover]
proof fn lemma_connect_total_len(
    s: Seq<u8>,
    start: int,
    rl: int,
    q: Connect,
    protocol: Protocol,
    fbyte: u8,
    cv: Seq<char>,
    will: Option<(Seq<char>, Seq<u8>)>,
    user: Option<Seq<char>>,
    pass: Option<Seq<u8>>,
    pos: int,
)
    requires
        0 <= start,
        start + rl <= s.len(),
        valid_packet(Packet::Connect(q)),
        s.subrange(start, start + rl) == connect_body(q),
        rl == connect_body(q).len(),
        s.subrange(start, start + protocol_bytes(protocol).len() as int) == protocol_bytes(
            protocol,
        ),
        s[start + protocol_bytes(protocol).len()] == fbyte,
        valid_string(cv),
        s.subrange(
            start + protocol_bytes(protocol).len() + 3,
            start + protocol_bytes(protocol).len() + 3 + str_bytes(cv).len() as int,
        ) == str_bytes(cv),
        will is Some <==> (fbyte as int / 4) % 2 == 1,
        (will matches Some(wv) ==> valid_string(wv.0) && valid_bin(wv.1) && s.subrange(
            start + protocol_bytes(protocol).len() + 3 + str_bytes(cv).len(),
            start + protocol_bytes(protocol).len() + 3 + str_bytes(cv).len() + str_bytes(
                wv.0,
            ).len() as int,
        ) == str_bytes(wv.0) && s.subrange(
            start + protocol_bytes(protocol).len() + 3 + str_bytes(cv).len() + str_bytes(
                wv.0,
            ).len(),
            start + protocol_bytes(protocol).len() + 3 + str_bytes(cv).len() + str_bytes(
                wv.0,
            ).len() + bin_bytes(wv.1).len() as int,
        ) == bin_bytes(wv.1)),
        ({
            let pwill = start + protocol_bytes(protocol).len() + 3 + str_bytes(cv).len();
            let puser = pwill + (match will {
                Some(wv) => str_bytes(wv.0).len() + bin_bytes(wv.1).len() as int,
                None => 0int,
            });
            let ppass = puser + (match user {
                Some(uv) => str_bytes(uv).len() as int,
                None => 0int,
            });
            &&& (user is Some <==> fbyte as int / 128 == 1)
            &&& (user matches Some(uv) ==> valid_string(uv) && s.subrange(
                puser,
                puser + str_bytes(uv).len() as int,
            ) == str_bytes(uv))
            &&& (pass is Some <==> (fbyte as int / 64) % 2 == 1)
            &&& (pass matches Some(pv) ==> valid_bin(pv) && s.subrange(
                ppass,
                ppass + bin_bytes(pv).len() as int,
            ) == bin_bytes(pv) && pos == ppass + bin_bytes(pv).len())
            &&& (pass is None ==> pos == ppass)
        }),
        pos <= start + rl,
    ensures
        pos == start + rl,
{
    lemma_connect_align(s, start, rl, q, protocol, fbyte);
    lemma_connect_fields(s, start, rl, q);
    let p2 = start + protocol_bytes(q.protocol).len() + 3;
    crate::wire::lemma_str_bytes_prefix_eq(s, p2, cv, q.client_id@);
    let p3 = p2 + str_bytes(q.client_id@).len() as int;
    match (will, q.last_will) {
        (Some(wv), Some(w)) => {
            crate::wire::lemma_str_bytes_prefix_eq(s, p3, wv.0, w.topic@);
            let pt = p3 + str_bytes(w.topic@).len() as int;
            crate::wire::lemma_bin_bytes_prefix_eq(s, pt, wv.1, w.message@);
        },
        (None, None) => {},
        _ => {
            assert(false);
        },
    }
    let p4 = p3 + (match q.last_will {
        Some(w) => str_bytes(w.topic@).len() + bin_bytes(w.message@).len() as int,
        None => 0int,
    });
    match (user, q.username) {
        (Some(uv), Some(u)) => {
            crate::wire::lemma_str_bytes_prefix_eq(s, p4, uv, u@);
        },
        (None, None) => {},
        _ => {
            assert(false);
        },
    }
    let p5 = p4 + (match q.username {
        Some(u) => str_bytes(u@).len() as int,
        None => 0int,
    });
    match (pass, q.password) {
        (Some(pv), Some(pw)) => {
            crate::wire::lemma_bin_bytes_prefix_eq(s, p5, pv, pw@);
        },
        (None, None) => {},
        _ => {
            assert(false);
        },
    }
}

/// Assembles a parsed Connect value's body from the adjacent buffer pieces
/// its fields were read out of.
#[verifier::rlimit(100)]
#[verifier::spinoff_prover]
proof fn lemma_connect_assemble(
    s: Seq<u8>,
    start: int,
    c: Connect,
    pflags: int,
    pcid: int,
    pwill: int,
    puser: int,
    ppass: int,
    pend: int,
)
    requires
        0 <= start,
        pend <= s.len(),
        pflags == start + protocol_bytes(c.protocol).len(),
        pflags + 3 <= pcid <= pwill <= puser <= ppass <= pend,
        pcid == pflags + 3,
        s.subrange(start, pflags) == protocol_bytes(c.protocol),
        s[pflags] == connect_flags(c) as u8,
        s.subrange(pflags + 1, pcid) == len16(c.keep_alive as int),
        s.subrange(pcid, pwill) == str_bytes(c.client_id@),
        s.subrange(pwill, puser) == (match c.last_will {
            Some(w) => str_bytes(w.topic@) + bin_bytes(w.message@),
            None => Seq::<u8>::empty(),
        }),
        s.subrange(puser, ppass) == (match c.username {
            Some(u) => str_bytes(u@),
            None => Seq::<u8>::empty(),
        }),
        s.subrange(ppass, pend) == (match c.password {
            Some(pw) => bin_bytes(pw@),
            None => Seq::<u8>::empty(),
        }),
    ensures
        s.subrange(start, pend) == connect_body(c),
{
    assert(s.subrange(pflags, pflags + 1) =~= seq![connect_flags(c) as u8]);
    assert(s.subrange(start, pend) =~= s.subrange(start, pflags) + s.subrange(pflags, pflags + 1)
        + s.subrange(pflags + 1, pcid) + s.subrange(pcid, pwill) + s.subrange(pwill, puser)
        + s.subrange(puser, ppass) + s.subrange(ppass, pend));
}

/// Reads the protocol name and level that open a Connect body: the exact
/// byte sequences for MQTT 3.1.1 and MQTT 3.1 are the only two accepted.
fn read_protocol(buf: &Vec<u8>, offset: &mut usize, end: usize) -> (r: Result<Protocol, Error>)
    requires
        *old(offset) <= end <= buf@.len(),
    ensures
        ({
            let start = *old(offset) as int;
            &&& (r matches Ok(p) ==> start + protocol_bytes(p).len() <= end && buf@.subrange(
                start,
                start + protocol_bytes(p).len() as int,
            ) == protocol_bytes(p) && *final(offset) == start + protocol_bytes(p).len())
            &&& (forall|p2: Protocol|
                (start + #[trigger] protocol_bytes(p2).len() <= end && buf@.subrange(
                    start,
                    start + protocol_bytes(p2).len() as int,
                ) == protocol_bytes(p2)) ==> r == Result::<Protocol, Error>::Ok(p2))
        }),
{
    let ghost start = *old(offset) as int;
    proof {
        assert(protocol_bytes(Protocol::MQTT311) == seq![0u8, 4u8, 77u8, 81u8, 84u8, 84u8, 4u8]);
        assert(protocol_bytes(Protocol::MQIsdp) == seq![
            0u8,
            6u8,
            77u8,
            81u8,
            73u8,
            115u8,
            100u8,
            112u8,
            3u8,
        ]);
    }
    let o = *offset;
    if end - o < 7 {
        return Err(Error::InvalidLength);
    }
    if buf[o] == 0 && buf[o + 1] == 4 && buf[o + 2] == 77 && buf[o + 3] == 81 && buf[o + 4] == 84
        && buf[o + 5] == 84 && buf[o + 6] == 4 {
        *offset = o + 7;
        proof {
            assert(buf@.subrange(start, start + 7) =~= protocol_bytes(Protocol::MQTT311));
            assert forall|p2: Protocol|
                (start + #[trigger] protocol_bytes(p2).len() <= end && buf@.subrange(
                    start,
                    start + protocol_bytes(p2).len() as int,
                ) == protocol_bytes(p2)) implies p2 == Protocol::MQTT311 by {
                assert(buf@[start + 1] == protocol_bytes(p2)[1]);
            }
        }
        return Ok(Protocol::MQTT311);
    }
    if end - o >= 9 && buf[o] == 0 && buf[o + 1] == 6 && buf[o + 2] == 77 && buf[o + 3] == 81
        && buf[o + 4] == 73 && buf[o + 5] == 115 && buf[o + 6] == 100 && buf[o + 7] == 112 && buf[o
        + 8] == 3 {
        *offset = o + 9;
        proof {
            assert(buf@.subrange(start, start + 9) =~= protocol_bytes(Protocol::MQIsdp));
            assert forall|p2: Protocol|
                (start + #[trigger] protocol_bytes(p2).len() <= end && buf@.subrange(
                    start,
                    start + protocol_bytes(p2).len() as int,
                ) == protocol_bytes(p2)) implies p2 == Protocol::MQIsdp by {
                assert(buf@[start + 1] == protocol_bytes(p2)[1]);
            }
        }
        return Ok(Protocol::MQIsdp);
    }
    proof {
        assert forall|p2: Protocol|
            (start + #[trigger] protocol_bytes(p2).len() <= end && buf@.subrange(
                start,
                start + protocol_bytes(p2).len() as int,
            ) == protocol_bytes(p2)) implies false by {
            assert forall|i: int| 0 <= i < protocol_bytes(p2).len() implies buf@[start + i]
                == protocol_bytes(p2)[i] by {
                assert(buf@.subrange(start, start + protocol_bytes(p2).len() as int)[i]
                    == protocol_bytes(p2)[i]);
            }
        }
    }
    Err(Error::InvalidProtocol)
}

impl Connect {
    /// Reads a Connect body: protocol name and level, flag byte, keep-alive
    /// interval, client identifier, then the optional last-will, username
    /// and password fields that the flag byte announces.  The flag byte must
    /// be exactly reconstructible from those fields: a set reserved bit, or
    /// will options without the will flag, are malformed.
    #[verifier::rlimit(100)]
    #[verifier::spinoff_prover]
    pub(crate) fn from_buffer(remaining_len: usize, buf: &Vec<u8>, offset: &mut usize) -> (r:
        Result<Connect, Error>)
        requires
            *old(offset) + remaining_len <= buf@.len(),
            remaining_len <= 268435455,
        ensures
            ({
                let start = *old(offset) as int;
                let region = buf@.subrange(start, start + remaining_len as int);
                &&& (r matches Ok(c) ==> *final(offset) == start + remaining_len && region
                    == connect_body(c) && valid_packet(Packet::Connect(c)))
                &&& (forall|q: Connect|
                    (valid_packet(Packet::Connect(q)) && region == #[trigger] connect_body(q))
                        ==> (r matches Ok(c) && same_connect(c, q)))
            }),
    {
        let ghost start = *old(offset) as int;
        let ghost rl = remaining_len as int;
        let ghost region = buf@.subrange(start, start + rl);
        let ghost s = buf@;
        let buf_len = buf.len();
        let payload_end = *offset + remaining_len;

        let protocol = match read_protocol(buf, offset, payload_end) {
            Ok(p) => p,
            Err(e) => {
                proof {
                    assert forall|q: Connect|
                        (valid_packet(Packet::Connect(q)) && region == #[trigger] connect_body(q))
                            implies false by {
                        lemma_connect_sizes(s, start, rl, q);
                    }
                }
                return Err(e);
            },
        };
        let ghost pflags = *offset as int;

        if *offset >= payload_end {
            proof {
                assert forall|q: Connect|
                    (valid_packet(Packet::Connect(q)) && region == #[trigger] connect_body(q))
                        implies false by {
                    lemma_connect_sizes(s, start, rl, q);
                    assert(s[start + 1] == protocol_bytes(q.protocol)[1]);
                    assert(s.subrange(start, start + protocol_bytes(protocol).len() as int)[1]
                        == protocol_bytes(protocol)[1]);
                }
            }
            return Err(Error::InvalidLength);
        }
        let fbyte = buf[*offset];
        *offset = *offset + 1;
        let will_flag = (fbyte / 4) % 2 == 1;
        let will_qos_bits = (fbyte / 8) % 4;
        let will_retain = (fbyte / 32) % 2 == 1;
        let clean_session = (fbyte / 2) % 2 == 1;
        let username_flag = fbyte / 128 == 1;
        let password_flag = (fbyte / 64) % 2 == 1;
        let will_qos = match QoS::from_u8(will_qos_bits) {
            Ok(q) => q,
            Err(e) => {
                proof {
                    assert forall|q: Connect|
                        (valid_packet(Packet::Connect(q)) && region == #[trigger] connect_body(q))
                            implies false by {
                        lemma_connect_align(s, start, rl, q, protocol, fbyte);
                        lemma_connect_flags_decomp(q);
                    }
                }
                return Err(e);
            },
        };
        let reconstructed: u8 = (if username_flag {
            128
        } else {
            0
        }) + (if password_flag {
            64
        } else {
            0
        }) + (if will_flag {
            4 + will_qos.to_u8() * 8 + (if will_retain {
                32
            } else {
                0
            })
        } else {
            0
        }) + (if clean_session {
            2
        } else {
            0
        });
        if reconstructed != fbyte {
            proof {
                assert forall|q: Connect|
                    (valid_packet(Packet::Connect(q)) && region == #[trigger] connect_body(q))
                        implies false by {
                    lemma_connect_align(s, start, rl, q, protocol, fbyte);
                    lemma_connect_flags_decomp(q);
                    assert(reconstructed as int == connect_flags(q));
                }
            }
            return Err(Error::InvalidConnectFlags);
        }

        if payload_end - *offset < 2 {
            proof {
                assert forall|q: Connect|
                    (valid_packet(Packet::Connect(q)) && region == #[trigger] connect_body(q))
                        implies false by {
                    lemma_connect_sizes(s, start, rl, q);
                    assert(s[start + 1] == protocol_bytes(q.protocol)[1]);
                    assert(s.subrange(start, start + protocol_bytes(protocol).len() as int)[1]
                        == protocol_bytes(protocol)[1]);
                }
            }
            return Err(Error::InvalidLength);
        }
        let ka_hi = buf[*offset];
        let ka_lo = buf[*offset + 1];
        let keep_alive: u16 = (ka_hi as u16) * 256 + (ka_lo as u16);
        let ghost pka = *offset as int;
        *offset = *offset + 2;

        proof {
            assert(keep_alive as int / 256 == ka_hi as int && keep_alive as int % 256
                == ka_lo as int) by (nonlinear_arith)
                requires
                    keep_alive as int == ka_hi as int * 256 + ka_lo as int,
                    0 <= ka_lo < 256,
                    0 <= ka_hi < 256,
            ;
            assert(s.subrange(pka, pka + 2) =~= len16(keep_alive as int));
        }
        return Self::read_tail(
            buf,
            offset,
            payload_end,
            Ghost(start),
            Ghost(rl),
            Ghost(pflags),
            protocol,
            fbyte,
            will_flag,
            username_flag,
            password_flag,
            will_qos,
            will_retain,
            clean_session,
            keep_alive,
        );
    }

    /// Reads the variable tail of a Connect body -- client identifier and
    /// the optional fields the flag byte announces -- and assembles the
    /// packet.
    #[verifier::rlimit(100)]
    #[verifier::spinoff_prover]
    #[allow(unused_variables)]
    fn read_tail(
        buf: &Vec<u8>,
        offset: &mut usize,
        payload_end: usize,
        Ghost(start): Ghost<int>,
        Ghost(rl): Ghost<int>,
        Ghost(pflags): Ghost<int>,
        protocol: Protocol,
        fbyte: u8,
        will_flag: bool,
        username_flag: bool,
        password_flag: bool,
        will_qos: QoS,
        will_retain: bool,
        clean_session: bool,
        keep_alive: u16,
    ) -> (r: Result<Connect, Error>)
        requires
            0 <= start,
            rl <= 268435455,
            payload_end == start + rl,
            payload_end <= buf@.len(),
            buf@.subrange(start, start + protocol_bytes(protocol).len() as int) == protocol_bytes(
                protocol,
            ),
            pflags == start + protocol_bytes(protocol).len(),
            buf@[pflags] == fbyte,
            buf@.subrange(pflags + 1, pflags + 3) == len16(keep_alive as int),
            *old(offset) == pflags + 3,
            *old(offset) <= payload_end,
            will_flag == ((fbyte as int / 4) % 2 == 1),
            username_flag == (fbyte as int / 128 == 1),
            password_flag == ((fbyte as int / 64) % 2 == 1),
            fbyte as int == (if username_flag {
                128int
            } else {
                0int
            }) + (if password_flag {
                64int
            } else {
                0int
            }) + (if will_flag {
                4 + 8 * will_qos.as_u8() + (if will_retain {
                    32int
                } else {
                    0int
                })
            } else {
                0int
            }) + (if clean_session {
                2int
            } else {
                0int
            }),
        ensures
            ({
                let region = buf@.subrange(start, start + rl);
                &&& (r matches Ok(c) ==> *final(offset) == start + rl && region == connect_body(c)
                    && valid_packet(Packet::Connect(c)))
                &&& (forall|q: Connect|
                    (valid_packet(Packet::Connect(q)) && region == #[trigger] connect_body(q))
                        ==> (r matches Ok(c) && same_connect(c, q)))
            }),
    {
        let ghost s = buf@;
        let ghost region = buf@.subrange(start, start + rl);
        let ghost pcid = *offset as int;
        let client_id = match read_str(buf, offset, payload_end) {
            Ok(cid) => cid,
            Err(e) => {
                proof {
                    assert forall|q: Connect|
                        (valid_packet(Packet::Connect(q)) && region == #[trigger] connect_body(q))
                            implies false by {
                        lemma_connect_cid_readable(s, start, rl, q, protocol, fbyte);
                    }
                }
                return Err(e);
            },
        };

        let ghost pwill = *offset as int;
        let last_will = if will_flag {
            let topic = match read_str(buf, offset, payload_end) {
                Ok(t) => t,
                Err(e) => {
                    proof {
                        assert forall|q: Connect|
                            (valid_packet(Packet::Connect(q)) && region == #[trigger] connect_body(
                                q,
                            )) implies false by {
                            lemma_connect_will_topic_readable(
                                s,
                                start,
                                rl,
                                q,
                                protocol,
                                fbyte,
                                client_id@,
                                pwill,
                            );
                        }
                    }
                    return Err(e);
                },
            };
            let ghost pmsg = *offset as int;
            let message = match read_bin(buf, offset, payload_end) {
                Ok(m) => m,
                Err(e) => {
                    proof {
                        assert forall|q: Connect|
                            (valid_packet(Packet::Connect(q)) && region == #[trigger] connect_body(
                                q,
                            )) implies false by {
                            lemma_connect_will_msg_readable(
                                s,
                                start,
                                rl,
                                q,
                                protocol,
                                fbyte,
                                client_id@,
                                topic@,
                                pmsg,
                            );
                        }
                    }
                    return Err(e);
                },
            };
            Some(LastWill { topic, message, qos: will_qos, retain: will_retain })
        } else {
            None
        };
        let ghost willv: Option<(Seq<char>, Seq<u8>)> = match last_will {
            Some(ref w) => Some((w.topic@, w.message@)),
            None => None,
        };

        let ghost puser = *offset as int;
        let username = if username_flag {
            match read_str(buf, offset, payload_end) {
                Ok(u) => Some(u),
                Err(e) => {
                    proof {
                        assert forall|q: Connect|
                            (valid_packet(Packet::Connect(q)) && region == #[trigger] connect_body(
                                q,
                            )) implies false by {
                            lemma_connect_user_readable(
                                s,
                                start,
                                rl,
                                q,
                                protocol,
                                fbyte,
                                client_id@,
                                willv,
                                puser,
                            );
                        }
                    }
                    return Err(e);
                },
            }
        } else {
            None
        };
        let ghost userv: Option<Seq<char>> = match username {
            Some(ref u) => Some(u@),
            None => None,
        };

        let ghost ppass = *offset as int;
        let password = if password_flag {
            match read_bin(buf, offset, payload_end) {
                Ok(pw) => Some(pw),
                Err(e) => {
                    proof {
                        assert forall|q: Connect|
                            (valid_packet(Packet::Connect(q)) && region == #[trigger] connect_body(
                                q,
                            )) implies false by {
                            lemma_connect_pass_readable(
                                s,
                                start,
                                rl,
                                q,
                                protocol,
                                fbyte,
                                client_id@,
                                willv,
                                userv,
                                ppass,
                            );
                        }
                    }
                    return Err(e);
                },
            }
        } else {
            None
        };
        let ghost passv: Option<Seq<u8>> = match password {
            Some(ref pw) => Some(pw@),
            None => None,
        };

        if *offset != payload_end {
            proof {
                let ghost pos = *offset as int;
                assert forall|q: Connect|
                    (valid_packet(Packet::Connect(q)) && region == #[trigger] connect_body(q))
                        implies false by {
                    lemma_connect_total_len(
                        s,
                        start,
                        rl,
                        q,
                        protocol,
                        fbyte,
                        client_id@,
                        willv,
                        userv,
                        passv,
                        pos,
                    );
                }
            }
            return Err(Error::InvalidLength);
        }

        let c = Connect {
            protocol,
            keep_alive,
            client_id,
            clean_session,
            last_will,
            username,
            password,
        };
        proof {
            match c.last_will {
                Some(ref w) => {
                    assert(s.subrange(pwill, puser) =~= str_bytes(w.topic@) + bin_bytes(
                        w.message@,
                    ));
                },
                None => {
                    assert(s.subrange(pwill, puser) =~= Seq::<u8>::empty());
                },
            }
            match c.username {
                Some(ref u) => {},
                None => {
                    assert(s.subrange(puser, ppass) =~= Seq::<u8>::empty());
                },
            }
            match c.password {
                Some(ref pw) => {},
                None => {
                    assert(s.subrange(ppass, payload_end as int) =~= Seq::<u8>::empty());
                },
            }
            assert(connect_flags(c) == fbyte as int);
            assert(s[pflags] == fbyte);
            lemma_connect_assemble(
                s,
                start,
                c,
                pflags,
                pcid,
                pwill,
                puser,
                ppass,
                payload_end as int,
            );
            assert(region =~= s.subrange(start, payload_end as int));
            assert(valid_packet(Packet::Connect(c)));
            assert forall|q: Connect|
                (valid_packet(Packet::Connect(q)) && region == #[trigger] connect_body(q))
                    implies same_connect(c, q) by {
                lemma_connect_body_inj(c, q);
            }
        }
        Ok(c)
    }


    /// Builds this packet's body bytes; fails, leaving `body` unchanged in
    /// meaning, when a string or binary field exceeds its length prefix.
    #[verifier::rlimit(100)]
    #[verifier::spinoff_prover]
    fn write_body(&self, body: &mut Vec<u8>) -> (r: Result<(), Error>)
        requires
            old(body)@.len() == 0,
        ensures
            r is Ok <==> (valid_string(self.client_id@) && (match self.last_will {
                Some(w) => valid_string(w.topic@) && valid_bin(w.message@),
                None => true,
            }) && (match self.username {
                Some(u) => valid_string(u@),
                None => true,
            }) && (match self.password {
                Some(pw) => valid_bin(pw@),
                None => true,
            })),
            r is Ok ==> final(body)@ == connect_body(*self),
            r is Err ==> r == Result::<(), Error>::Err(Error::InvalidLength),
    {
        match self.protocol {
            Protocol::MQTT311 => {
                body.push(0);
                body.push(4);
                body.push(77);
                body.push(81);
                body.push(84);
                body.push(84);
                body.push(4);
            },
            Protocol::MQIsdp => {
                body.push(0);
                body.push(6);
                body.push(77);
                body.push(81);
                body.push(73);
                body.push(115);
                body.push(100);
                body.push(112);
                body.push(3);
            },
        }
        proof {
            assert(body@ =~= protocol_bytes(self.protocol));
        }
        let flags: u8 = (if self.username.is_some() {
            128
        } else {
            0
        }) + (if self.password.is_some() {
            64
        } else {
            0
        }) + (match &self.last_will {
            Some(w) => 4 + w.qos.to_u8() * 8 + (if w.retain {
                32
            } else {
                0
            }),
            None => 0,
        }) + (if self.clean_session {
            2
        } else {
            0
        });
        body.push(flags);
        write_u16(self.keep_alive, body);
        let ghost b_head = body@;
        proof {
            assert(flags as int == connect_flags(*self));
            assert(b_head =~= protocol_bytes(self.protocol) + seq![connect_flags(*self) as u8]
                + len16(self.keep_alive as int));
        }
        match write_str(&self.client_id, body) {
            Ok(()) => {},
            Err(e) => {
                return Err(e);
            },
        }
        let ghost b_cid = body@;
        match &self.last_will {
            Some(w) => {
                match write_str(&w.topic, body) {
                    Ok(()) => {},
                    Err(e) => {
                        return Err(e);
                    },
                }
                match write_bin(&w.message, body) {
                    Ok(()) => {},
                    Err(e) => {
                        return Err(e);
                    },
                }
            },
            None => {},
        }
        proof {
            match &self.last_will {
                Some(w) => {
                    assert(body@ =~= b_cid + (str_bytes(w.topic@) + bin_bytes(w.message@)));
                },
                None => {
                    assert(body@ =~= b_cid + Seq::<u8>::empty());
                },
            }
        }
        let ghost b_will = body@;
        match &self.username {
            Some(u) => {
                match write_str(u, body) {
                    Ok(()) => {},
                    Err(e) => {
                        return Err(e);
                    },
                }
            },
            None => {},
        }
        let ghost b_user = body@;
        match &self.password {
            Some(pw) => {
                match write_bin(pw, body) {
                    Ok(()) => {},
                    Err(e) => {
                        return Err(e);
                    },
                }
            },
            None => {},
        }
        proof {
            assert(body@ =~= connect_body(*self));
        }
        Ok(())
    }

    /// Appends this packet's complete wire encoding and returns how many
    /// bytes were written.
    pub(crate) fn to_buffer(&self, out: &mut Vec<u8>) -> (r: Result<usize, Error>)
        ensures
            r is Ok <==> encodable(Packet::Connect(*self)),
            r matches Ok(n) ==> final(out)@ == old(out)@ + wire(Packet::Connect(*self)) && n
                == wire(Packet::Connect(*self)).len(),
            r is Err ==> final(out)@ == old(out)@ && r == Result::<usize, Error>::Err(
                Error::InvalidLength,
            ),
    {
        let mut body: Vec<u8> = Vec::new();
        match self.write_body(&mut body) {
            Ok(()) => {},
            Err(e) => {
                return Err(e);
            },
        }
        let r = write_frame(0x10, body, out);
        proof {
            if r is Ok {
                assert(final(out)@ =~= old(out)@ + wire(Packet::Connect(*self)));
            }
        }
        r
    }
}

} // verus!
