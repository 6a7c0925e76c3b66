//! The Subscribe, Suback and Unsubscribe packet payloads and their codecs.
//!
//! All three share one wire shape: a packet identifier followed by a list of
//! entries that must fill the packet's declared Remaining Length exactly.
//! An entry that would read past that boundary is malformed.

use vstd::prelude::*;

use crate::decoder::read_str;
use crate::encoder::{write_frame, write_str};
use crate::packet::Packet;
use crate::utils::{Error, Pid, QoS};
use crate::wire::{
    codes_bytes, encodable, filters_bytes, lemma_filters_bytes_snoc, lemma_filters_bytes_split_at,
    lemma_len16_be16, lemma_pid_bytes_inj, lemma_split_region, lemma_topics_bytes_snoc,
    lemma_topics_bytes_split_at, pid_bytes, rc_byte, same_suback, same_subscribe, same_topic,
    same_unsubscribe, str_bytes, topic_bytes, topics_bytes, valid_packet, valid_string, wire,
};

verus! {

/// One requested subscription: a topic filter and the highest
/// quality-of-service level the subscriber is willing to receive at.
#[derive(Debug, Clone, PartialEq)]
pub struct SubscribeTopic {
    pub topic_path: String,
    pub qos: QoS,
}

/// Per-topic outcome of a Subscribe request, one per requested filter.
///
/// Wire encoding: the byte 0x80 means `Failure`; any other byte must be a
/// valid quality-of-service byte and means `Success` at that level.
#[derive(Debug, Clone, Copy, PartialEq, Eq, Structural)]
pub enum SubscribeReturnCodes {
    Success(QoS),
    Failure,
}

/// Subscribe packet payload (MQTT 3.8).
#[derive(Debug, Clone, PartialEq)]
pub struct Subscribe {
    pub pid: Pid,
    pub topics: Vec<SubscribeTopic>,
}

/// Suback packet payload (MQTT 3.9).  The return codes answer the requested
/// topics of the matching Subscribe in order.
#[derive(Debug, Clone, PartialEq)]
pub struct Suback {
    pub pid: Pid,
    pub return_codes: Vec<SubscribeReturnCodes>,
}

/// Unsubscribe packet payload (MQTT 3.10).
#[derive(Debug, Clone, PartialEq)]
pub struct Unsubscribe {
    pub pid: Pid,
    pub topics: Vec<String>,
}

/// Facts about the bytes of one Subscribe entry sitting at `start` in `s`:
/// what its length prefix reads back as, where its pieces lie, and that its
/// string bytes are valid UTF-8.
proof fn lemma_topic_entry_facts(s: Seq<u8>, start: int, tq: SubscribeTopic)
    requires
        0 <= start,
        valid_string(tq.topic_path@),
        start + topic_bytes(tq).len() <= s.len(),
        s.subrange(start, start + topic_bytes(tq).len() as int) == topic_bytes(tq),
    ensures
        ({
            let e = vstd::utf8::encode_utf8(tq.topic_path@);
            &&& topic_bytes(tq).len() == 2 + e.len() + 1
            &&& crate::wire::be16(s[start], s[start + 1]) == e.len()
            &&& s.subrange(start + 2, start + 2 + e.len() as int) == e
            &&& vstd::utf8::valid_utf8(s.subrange(start + 2, start + 2 + e.len() as int))
            &&& vstd::utf8::decode_utf8(s.subrange(start + 2, start + 2 + e.len() as int))
                == tq.topic_path@
            &&& s[start + 2 + e.len()] == tq.qos.as_u8()
        }),
{
    let e = vstd::utf8::encode_utf8(tq.topic_path@);
    let sb = str_bytes(tq.topic_path@);
    lemma_split_region(s, start, sb, seq![tq.qos.as_u8()]);
    lemma_split_region(s, start, crate::wire::len16(e.len() as int), e);
    lemma_len16_be16(e.len() as int);
    assert(s[start] == sb[0]);
    assert(s[start + 1] == sb[1]);
    assert(sb[0] == crate::wire::len16(e.len() as int)[0]);
    assert(sb[1] == crate::wire::len16(e.len() as int)[1]);
    vstd::utf8::encode_utf8_valid_utf8(tq.topic_path@);
    vstd::utf8::encode_utf8_decode_utf8(tq.topic_path@);
    assert(s[start + 2 + e.len()] == s.subrange(start, start + topic_bytes(tq).len() as int)[2
        + e.len() as int]);
    assert(topic_bytes(tq)[2 + e.len() as int] == tq.qos.as_u8());
}

impl SubscribeTopic {
    /// Reads one entry -- topic filter string, then one quality-of-service
    /// byte -- never reading at or past `end`.
    pub(crate) fn from_buffer(buf: &Vec<u8>, offset: &mut usize, end: usize) -> (r: Result<
        SubscribeTopic,
        Error,
    >)
        requires
            *old(offset) <= end <= buf@.len(),
        ensures
            ({
                let start = *old(offset) as int;
                &&& (r matches Ok(t) ==> valid_string(t.topic_path@) && start + topic_bytes(
                    t,
                ).len() <= end && *final(offset) == start + topic_bytes(t).len()
                    && buf@.subrange(start, start + topic_bytes(t).len() as int) == topic_bytes(t))
                &&& (forall|tq: SubscribeTopic|
                    (valid_string(tq.topic_path@) && start + #[trigger] topic_bytes(tq).len()
                        <= end && buf@.subrange(start, start + topic_bytes(tq).len() as int)
                        == topic_bytes(tq)) ==> (r matches Ok(t) && same_topic(t, tq)))
                &&& (crate::decoder::str_readable(buf@, start, end as int) && start + 2
                    + crate::wire::be16(buf@[start], buf@[start + 1]) < end && buf@[start + 2
                    + crate::wire::be16(buf@[start], buf@[start + 1])] > 2 ==> r == Result::<
                    SubscribeTopic,
                    Error,
                >::Err(Error::InvalidQos))
            }),
    {
        let ghost start = *old(offset) as int;
        let topic_path = match read_str(buf, offset, end) {
            Ok(s) => s,
            Err(e) => {
                proof {
                    assert forall|tq: SubscribeTopic|
                        (valid_string(tq.topic_path@) && start + #[trigger] topic_bytes(tq).len()
                            <= end && buf@.subrange(start, start + topic_bytes(tq).len() as int)
                            == topic_bytes(tq)) implies false by {
                        lemma_topic_entry_facts(buf@, start, tq);
                    }
                }
                return Err(e);
            },
        };
        let ghost mid = *offset as int;
        if *offset >= end {
            proof {
                assert forall|tq: SubscribeTopic|
                    (valid_string(tq.topic_path@) && start + #[trigger] topic_bytes(tq).len()
                        <= end && buf@.subrange(start, start + topic_bytes(tq).len() as int)
                        == topic_bytes(tq)) implies false by {
                    lemma_topic_entry_facts(buf@, start, tq);
                }
            }
            return Err(Error::InvalidLength);
        }
        let qos_byte = buf[*offset];
        let qos = match QoS::from_u8(qos_byte) {
            Ok(q) => q,
            Err(e) => {
                proof {
                    assert forall|tq: SubscribeTopic|
                        (valid_string(tq.topic_path@) && start + #[trigger] topic_bytes(tq).len()
                            <= end && buf@.subrange(start, start + topic_bytes(tq).len() as int)
                            == topic_bytes(tq)) implies false by {
                        lemma_topic_entry_facts(buf@, start, tq);
                        assert(buf@[mid] == tq.qos.as_u8());
                    }
                }
                return Err(e);
            },
        };
        *offset = *offset + 1;
        let t = SubscribeTopic { topic_path, qos };
        proof {
            assert(buf@.subrange(start, start + topic_bytes(t).len() as int) =~= topic_bytes(t));
            assert forall|tq: SubscribeTopic|
                (valid_string(tq.topic_path@) && start + #[trigger] topic_bytes(tq).len() <= end
                    && buf@.subrange(start, start + topic_bytes(tq).len() as int) == topic_bytes(
                    tq,
                )) implies same_topic(t, tq) by {
                lemma_topic_entry_facts(buf@, start, tq);
                assert(t.topic_path@ == tq.topic_path@);
                assert(buf@[mid] == tq.qos.as_u8());
                assert(t.qos.as_u8() == tq.qos.as_u8());
                crate::utils::lemma_qos_byte_inj(t.qos, tq.qos);
            }
        }
        Ok(t)
    }
}

impl SubscribeReturnCodes {
    /// Reads one return code byte: 0x80 decodes to `Failure`; 0, 1 and 2
    /// decode to `Success` at that level; every other byte is rejected.  The
    /// cursor advances past the byte either way.
    pub fn from_buffer(buf: &Vec<u8>, offset: &mut usize) -> (r: Result<
        SubscribeReturnCodes,
        Error,
    >)
        requires
            *old(offset) < buf@.len(),
        ensures
            *final(offset) == *old(offset) + 1,
            ({
                let b = buf@[*old(offset) as int];
                if b == 0x80 {
                    r == Result::<SubscribeReturnCodes, Error>::Ok(SubscribeReturnCodes::Failure)
                } else if b <= 2 {
                    r matches Ok(c) && c matches SubscribeReturnCodes::Success(q) && q.as_u8() == b
                } else {
                    r == Result::<SubscribeReturnCodes, Error>::Err(Error::InvalidQos)
                }
            }),
            r matches Ok(c) ==> rc_byte(c) == buf@[*old(offset) as int],
    {
        let len = buf.len();
        let code = buf[*offset];
        *offset = *offset + 1;
        if code == 0x80 {
            Ok(SubscribeReturnCodes::Failure)
        } else {
            match QoS::from_u8(code) {
                Ok(q) => Ok(SubscribeReturnCodes::Success(q)),
                Err(e) => Err(e),
            }
        }
    }

    /// Encodes this return code as its wire byte.
    pub fn to_u8(&self) -> (r: u8)
        ensures
            r == rc_byte(*self),
    {
        match *self {
            SubscribeReturnCodes::Failure => 0x80,
            SubscribeReturnCodes::Success(qos) => qos.to_u8(),
        }
    }
}

impl Subscribe {
    /// Pairs an identifier with the requested topics.  The codec encodes
    /// whatever list it is given; protocol-level rules such as "a Subscribe
    /// must request at least one topic" are the caller's concern.
    pub fn new(pid: Pid, topics: Vec<SubscribeTopic>) -> (r: Subscribe)
        ensures
            r.pid == pid,
            r.topics == topics,
    {
        Subscribe { pid, topics }
    }

    /// Reads a Subscribe body: identifier, then entries until the declared
    /// length is exactly used up.
    #[verifier::loop_isolation(false)]
    #[verifier::rlimit(60)]
    pub(crate) fn from_buffer(remaining_len: usize, buf: &Vec<u8>, offset: &mut usize) -> (r:
        Result<Subscribe, Error>)
        requires
            *old(offset) + remaining_len <= buf@.len(),
            remaining_len <= 268435455,
        ensures
            ({
                let start = *old(offset) as int;
                let region = buf@.subrange(start, start + remaining_len as int);
                &&& (r matches Ok(s) ==> *final(offset) == start + remaining_len && region
                    == pid_bytes(s.pid) + topics_bytes(s.topics@) && valid_packet(
                    Packet::Subscribe(s),
                ))
                &&& (forall|q: Subscribe|
                    (valid_packet(Packet::Subscribe(q)) && region == pid_bytes(q.pid)
                        + #[trigger] topics_bytes(q.topics@)) ==> (r matches Ok(s)
                        && same_subscribe(s, q)))
                &&& (remaining_len < 2 ==> r == Result::<Subscribe, Error>::Err(
                    Error::InvalidLength,
                ))
                &&& (remaining_len >= 2 && crate::wire::be16(buf@[start], buf@[start + 1]) == 0
                    ==> r == Result::<Subscribe, Error>::Err(Error::InvalidPid))
            }),
    {
        let ghost start = *old(offset) as int;
        let ghost region = buf@.subrange(start, start + remaining_len as int);
        let buf_len = buf.len();
        let payload_end = *offset + remaining_len;
        let pid = match Pid::from_buffer(buf, offset, payload_end) {
            Ok(p) => p,
            Err(e) => {
                proof {
                    assert forall|q: Subscribe|
                        (valid_packet(Packet::Subscribe(q)) && region == pid_bytes(q.pid)
                            + #[trigger] topics_bytes(q.topics@)) implies false by {
                        lemma_split_region(buf@, start, pid_bytes(q.pid), topics_bytes(q.topics@));
                        lemma_len16_be16(q.pid.spec_value() as int);
                        assert(buf@[start] == pid_bytes(q.pid)[0]);
                        assert(buf@[start + 1] == pid_bytes(q.pid)[1]);
                    }
                }
                return Err(e);
            },
        };
        let mut topics: Vec<SubscribeTopic> = Vec::new();
        while *offset < payload_end
            invariant
                start + 2 <= *offset <= payload_end <= buf@.len(),
                payload_end == start + remaining_len,
                remaining_len <= 268435455,
                region == buf@.subrange(start, start + remaining_len as int),
                buf@.subrange(start, start + 2) == pid_bytes(pid),
                pid.spec_value() != 0,
                buf@.subrange(start + 2, *offset as int) == topics_bytes(topics@),
                forall|j: int|
                    0 <= j < topics@.len() ==> valid_string(#[trigger] topics@[j].topic_path@),
                forall|q: Subscribe|
                    (valid_packet(Packet::Subscribe(q)) && region == pid_bytes(q.pid)
                        + #[trigger] topics_bytes(q.topics@)) ==> (topics@.len() <= q.topics@.len()
                        && *offset == start + 2 + topics_bytes(
                        q.topics@.take(topics@.len() as int),
                    ).len() && (forall|j: int|
                        0 <= j < topics@.len() ==> same_topic(
                            #[trigger] topics@[j],
                            q.topics@[j],
                        ))),
            decreases payload_end - *offset,
        {
            let ghost off0 = *offset as int;
            let ghost n = topics@.len() as int;
            proof {
                assert forall|q: Subscribe|
                    (valid_packet(Packet::Subscribe(q)) && region == pid_bytes(q.pid)
                        + #[trigger] topics_bytes(q.topics@)) implies (n < q.topics@.len()
                    && buf@.subrange(off0, off0 + topic_bytes(q.topics@[n]).len() as int)
                    == topic_bytes(q.topics@[n]) && off0 + topic_bytes(q.topics@[n]).len()
                    <= payload_end && valid_string(q.topics@[n].topic_path@)) by {
                    let qt = q.topics@;
                    lemma_split_region(buf@, start, pid_bytes(q.pid), topics_bytes(qt));
                    if n == qt.len() {
                        assert(qt.take(n) =~= qt);
                        assert(false);
                    }
                    lemma_topics_bytes_split_at(qt, n);
                    lemma_split_region(
                        buf@,
                        start + 2,
                        topics_bytes(qt.take(n)),
                        topic_bytes(qt[n]) + topics_bytes(qt.skip(n + 1)),
                    );
                    lemma_split_region(
                        buf@,
                        off0,
                        topic_bytes(qt[n]),
                        topics_bytes(qt.skip(n + 1)),
                    );
                }
            }
            let t = match SubscribeTopic::from_buffer(buf, offset, payload_end) {
                Ok(t) => t,
                Err(e) => {
                    proof {
                        assert forall|q: Subscribe|
                            (valid_packet(Packet::Subscribe(q)) && region == pid_bytes(q.pid)
                                + #[trigger] topics_bytes(q.topics@)) implies false by {
                            assert(buf@.subrange(
                                off0,
                                off0 + topic_bytes(q.topics@[n]).len() as int,
                            ) == topic_bytes(q.topics@[n]));
                        }
                    }
                    return Err(e);
                },
            };
            proof {
                assert(buf@.subrange(start + 2, *offset as int) =~= buf@.subrange(start + 2, off0)
                    + buf@.subrange(off0, *offset as int));
                lemma_topics_bytes_snoc(topics@, t);
                assert forall|q: Subscribe|
                    (valid_packet(Packet::Subscribe(q)) && region == pid_bytes(q.pid)
                        + #[trigger] topics_bytes(q.topics@)) implies (topics@.len() + 1
                    <= q.topics@.len() && *offset == start + 2 + topics_bytes(
                    q.topics@.take(n + 1),
                ).len() && same_topic(t, q.topics@[n])) by {
                    let qt = q.topics@;
                    assert(same_topic(t, qt[n]));
                    assert(topic_bytes(t).len() == topic_bytes(qt[n]).len());
                    assert(qt.take(n + 1) =~= qt.take(n).push(qt[n]));
                    lemma_topics_bytes_snoc(qt.take(n), qt[n]);
                }
            }
            topics.push(t);
        }
        let s = Subscribe { pid, topics };
        proof {
            assert(region =~= buf@.subrange(start, start + 2) + buf@.subrange(
                start + 2,
                payload_end as int,
            ));
            assert(region == pid_bytes(s.pid) + topics_bytes(s.topics@));
            assert(crate::wire::wire_body(Packet::Subscribe(s)) == region);
            assert forall|q: Subscribe|
                (valid_packet(Packet::Subscribe(q)) && region == pid_bytes(q.pid)
                    + #[trigger] topics_bytes(q.topics@)) implies same_subscribe(s, q) by {
                let qt = q.topics@;
                let n = topics@.len() as int;
                lemma_split_region(buf@, start, pid_bytes(q.pid), topics_bytes(qt));
                lemma_pid_bytes_inj(pid, q.pid);
                assert(qt =~= qt.take(n) + qt.skip(n));
                crate::wire::lemma_topics_bytes_append(qt.take(n), qt.skip(n));
                if qt.skip(n).len() > 0 {
                    assert(topics_bytes(qt.skip(n)).len() >= topic_bytes(qt.skip(n)[0]).len());
                    assert(false);
                }
                assert(topics_bytes(qt.skip(n)).len() == 0);
                assert(qt.len() == n);
            }
        }
        Ok(s)
    }

    /// Appends this packet's complete wire encoding and returns how many
    /// bytes were written.
    #[verifier::loop_isolation(false)]
    pub(crate) fn to_buffer(&self, out: &mut Vec<u8>) -> (r: Result<usize, Error>)
        ensures
            r is Ok <==> encodable(Packet::Subscribe(*self)),
            r matches Ok(n) ==> final(out)@ == old(out)@ + wire(Packet::Subscribe(*self)) && n
                == wire(Packet::Subscribe(*self)).len(),
            r is Err ==> final(out)@ == old(out)@ && r == Result::<usize, Error>::Err(
                Error::InvalidLength,
            ),
    {
        let mut body: Vec<u8> = Vec::new();
        self.pid.to_buffer(&mut body);
        let mut i: usize = 0;
        while i < self.topics.len()
            invariant
                i <= self.topics@.len(),
                body@ == pid_bytes(self.pid) + topics_bytes(self.topics@.take(i as int)),
                forall|j: int|
                    0 <= j < i ==> valid_string(#[trigger] self.topics@[j].topic_path@),
            decreases self.topics@.len() - i,
        {
            let t = &self.topics[i];
            match write_str(&t.topic_path, &mut body) {
                Ok(()) => {},
                Err(e) => {
                    return Err(e);
                },
            }
            body.push(t.qos.to_u8());
            proof {
                assert(self.topics@.take(i + 1) =~= self.topics@.take(i as int).push(
                    self.topics@[i as int],
                ));
                lemma_topics_bytes_snoc(self.topics@.take(i as int), self.topics@[i as int]);
                assert(body@ =~= pid_bytes(self.pid) + topics_bytes(self.topics@.take(i + 1)));
            }
            i = i + 1;
        }
        proof {
            assert(self.topics@.take(self.topics@.len() as int) =~= self.topics@);
        }
        let r = write_frame(0x82, body, out);
        proof {
            if r is Ok {
                assert(final(out)@ =~= old(out)@ + wire(Packet::Subscribe(*self)));
            }
        }
        r
    }
}

impl Suback {
    /// Pairs an identifier with the granted return codes.
    pub fn new(pid: Pid, return_codes: Vec<SubscribeReturnCodes>) -> (r: Suback)
        ensures
            r.pid == pid,
            r.return_codes == return_codes,
    {
        Suback { pid, return_codes }
    }

    /// Reads a Suback body: identifier, then one return code byte per
    /// answered topic until the declared length is exactly used up.
    #[verifier::loop_isolation(false)]
    #[verifier::rlimit(60)]
    pub(crate) fn from_buffer(remaining_len: usize, buf: &Vec<u8>, offset: &mut usize) -> (r:
        Result<Suback, Error>)
        requires
            *old(offset) + remaining_len <= buf@.len(),
            remaining_len <= 268435455,
        ensures
            ({
                let start = *old(offset) as int;
                let region = buf@.subrange(start, start + remaining_len as int);
                &&& (r matches Ok(s) ==> *final(offset) == start + remaining_len && region
                    == pid_bytes(s.pid) + codes_bytes(s.return_codes@) && valid_packet(
                    Packet::Suback(s),
                ))
                &&& (forall|q: Suback|
                    (valid_packet(Packet::Suback(q)) && region == pid_bytes(q.pid)
                        + #[trigger] codes_bytes(q.return_codes@)) ==> (r matches Ok(s)
                        && same_suback(s, q)))
                &&& (remaining_len < 2 ==> r == Result::<Suback, Error>::Err(Error::InvalidLength))
                &&& (remaining_len >= 2 && crate::wire::be16(buf@[start], buf@[start + 1]) == 0
                    ==> r == Result::<Suback, Error>::Err(Error::InvalidPid))
            }),
    {
        let ghost start = *old(offset) as int;
        let ghost region = buf@.subrange(start, start + remaining_len as int);
        let buf_len = buf.len();
        let payload_end = *offset + remaining_len;
        let pid = match Pid::from_buffer(buf, offset, payload_end) {
            Ok(p) => p,
            Err(e) => {
                proof {
                    assert forall|q: Suback|
                        (valid_packet(Packet::Suback(q)) && region == pid_bytes(q.pid)
                            + #[trigger] codes_bytes(q.return_codes@)) implies false by {
                        lemma_split_region(
                            buf@,
                            start,
                            pid_bytes(q.pid),
                            codes_bytes(q.return_codes@),
                        );
                        lemma_len16_be16(q.pid.spec_value() as int);
                        assert(buf@[start] == pid_bytes(q.pid)[0]);
                        assert(buf@[start + 1] == pid_bytes(q.pid)[1]);
                    }
                }
                return Err(e);
            },
        };
        let mut return_codes: Vec<SubscribeReturnCodes> = Vec::new();
        while *offset < payload_end
            invariant
                start + 2 <= *offset <= payload_end <= buf@.len(),
                payload_end == start + remaining_len,
                region == buf@.subrange(start, start + remaining_len as int),
                buf@.subrange(start, start + 2) == pid_bytes(pid),
                pid.spec_value() != 0,
                *offset == start + 2 + return_codes@.len(),
                buf@.subrange(start + 2, *offset as int) == codes_bytes(return_codes@),
                forall|q: Suback|
                    (valid_packet(Packet::Suback(q)) && region == pid_bytes(q.pid)
                        + #[trigger] codes_bytes(q.return_codes@)) ==> (return_codes@.len()
                        <= q.return_codes@.len() && return_codes@ == q.return_codes@.take(
                        return_codes@.len() as int,
                    )),
            decreases payload_end - *offset,
        {
            let ghost off0 = *offset as int;
            let ghost n = return_codes@.len() as int;
            let c = match SubscribeReturnCodes::from_buffer(buf, offset) {
                Ok(c) => c,
                Err(e) => {
                    proof {
                        assert forall|q: Suback|
                            (valid_packet(Packet::Suback(q)) && region == pid_bytes(q.pid)
                                + #[trigger] codes_bytes(q.return_codes@)) implies false by {
                            let qc = q.return_codes@;
                            lemma_split_region(buf@, start, pid_bytes(q.pid), codes_bytes(qc));
                            assert(n < qc.len());
                            assert(buf@[off0] == codes_bytes(qc)[n]);
                            assert(rc_byte(qc[n]) == 0x80 || rc_byte(qc[n]) <= 2);
                        }
                    }
                    return Err(e);
                },
            };
            proof {
                assert forall|q: Suback|
                    (valid_packet(Packet::Suback(q)) && region == pid_bytes(q.pid)
                        + #[trigger] codes_bytes(q.return_codes@)) implies (n + 1 <= q.return_codes@.len()
                    && return_codes@.push(c) == q.return_codes@.take(n + 1)) by {
                    let qc = q.return_codes@;
                    lemma_split_region(buf@, start, pid_bytes(q.pid), codes_bytes(qc));
                    assert(n < qc.len());
                    assert(buf@[off0] == codes_bytes(qc)[n]);
                    assert(buf@[off0] == rc_byte(qc[n]));
                    match qc[n] {
                        SubscribeReturnCodes::Failure => {
                            assert(c == qc[n]);
                        },
                        SubscribeReturnCodes::Success(qs) => {
                            assert(rc_byte(qc[n]) == qs.as_u8());
                            assert(qs.as_u8() <= 2);
                            assert(c matches SubscribeReturnCodes::Success(q2) && q2.as_u8()
                                == qs.as_u8());
                            assert(c == qc[n]);
                        },
                    }
                    assert(return_codes@.push(c) =~= qc.take(n + 1));
                }
                assert(buf@.subrange(start + 2, off0 + 1) =~= buf@.subrange(start + 2, off0)
                    + buf@.subrange(off0, off0 + 1));
                assert(buf@.subrange(off0, off0 + 1) =~= seq![buf@[off0]]);
                assert(codes_bytes(return_codes@.push(c)) =~= codes_bytes(return_codes@) + seq![
                    rc_byte(c),
                ]);
            }
            return_codes.push(c);
        }
        let s = Suback { pid, return_codes };
        proof {
            assert(region =~= buf@.subrange(start, start + 2) + buf@.subrange(
                start + 2,
                payload_end as int,
            ));
            assert(region == pid_bytes(s.pid) + codes_bytes(s.return_codes@));
            assert forall|q: Suback|
                (valid_packet(Packet::Suback(q)) && region == pid_bytes(q.pid)
                    + #[trigger] codes_bytes(q.return_codes@)) implies same_suback(s, q) by {
                let qc = q.return_codes@;
                lemma_split_region(buf@, start, pid_bytes(q.pid), codes_bytes(qc));
                lemma_pid_bytes_inj(pid, q.pid);
                assert(return_codes@.len() == qc.len());
                assert(qc.take(qc.len() as int) =~= qc);
            }
        }
        Ok(s)
    }

    /// Appends this packet's complete wire encoding and returns how many
    /// bytes were written.
    #[verifier::loop_isolation(false)]
    pub(crate) fn to_buffer(&self, out: &mut Vec<u8>) -> (r: Result<usize, Error>)
        ensures
            r is Ok <==> encodable(Packet::Suback(*self)),
            r matches Ok(n) ==> final(out)@ == old(out)@ + wire(Packet::Suback(*self)) && n
                == wire(Packet::Suback(*self)).len(),
            r is Err ==> final(out)@ == old(out)@ && r == Result::<usize, Error>::Err(
                Error::InvalidLength,
            ),
    {
        let mut body: Vec<u8> = Vec::new();
        self.pid.to_buffer(&mut body);
        let mut i: usize = 0;
        while i < self.return_codes.len()
            invariant
                i <= self.return_codes@.len(),
                body@ == pid_bytes(self.pid) + codes_bytes(self.return_codes@.take(i as int)),
            decreases self.return_codes@.len() - i,
        {
            body.push(self.return_codes[i].to_u8());
            proof {
                assert(body@ =~= pid_bytes(self.pid) + codes_bytes(
                    self.return_codes@.take(i + 1),
                ));
            }
            i = i + 1;
        }
        proof {
            assert(self.return_codes@.take(self.return_codes@.len() as int)
                =~= self.return_codes@);
        }
        let r = write_frame(0x90, body, out);
        proof {
            if r is Ok {
                assert(final(out)@ =~= old(out)@ + wire(Packet::Suback(*self)));
            }
        }
        r
    }
}

impl Unsubscribe {
    /// Pairs an identifier with the topic filters to drop.
    pub fn new(pid: Pid, topics: Vec<String>) -> (r: Unsubscribe)
        ensures
            r.pid == pid,
            r.topics == topics,
    {
        Unsubscribe { pid, topics }
    }

    /// Reads an Unsubscribe body: identifier, then topic filter strings
    /// until the declared length is exactly used up.
    #[verifier::loop_isolation(false)]
    #[verifier::rlimit(60)]
    pub(crate) fn from_buffer(remaining_len: usize, buf: &Vec<u8>, offset: &mut usize) -> (r:
        Result<Unsubscribe, Error>)
        requires
            *old(offset) + remaining_len <= buf@.len(),
            remaining_len <= 268435455,
        ensures
            ({
                let start = *old(offset) as int;
                let region = buf@.subrange(start, start + remaining_len as int);
                &&& (r matches Ok(u) ==> *final(offset) == start + remaining_len && region
                    == pid_bytes(u.pid) + filters_bytes(u.topics.deep_view()) && valid_packet(
                    Packet::Unsubscribe(u),
                ))
                &&& (forall|q: Unsubscribe|
                    (valid_packet(Packet::Unsubscribe(q)) && region == pid_bytes(q.pid)
                        + #[trigger] filters_bytes(q.topics.deep_view())) ==> (r matches Ok(u)
                        && same_unsubscribe(u, q)))
                &&& (remaining_len < 2 ==> r == Result::<Unsubscribe, Error>::Err(
                    Error::InvalidLength,
                ))
                &&& (remaining_len >= 2 && crate::wire::be16(buf@[start], buf@[start + 1]) == 0
                    ==> r == Result::<Unsubscribe, Error>::Err(Error::InvalidPid))
            }),
    {
        let ghost start = *old(offset) as int;
        let ghost region = buf@.subrange(start, start + remaining_len as int);
        let buf_len = buf.len();
        let payload_end = *offset + remaining_len;
        let pid = match Pid::from_buffer(buf, offset, payload_end) {
            Ok(p) => p,
            Err(e) => {
                proof {
                    assert forall|q: Unsubscribe|
                        (valid_packet(Packet::Unsubscribe(q)) && region == pid_bytes(q.pid)
                            + #[trigger] filters_bytes(q.topics.deep_view())) implies false by {
                        lemma_split_region(
                            buf@,
                            start,
                            pid_bytes(q.pid),
                            filters_bytes(q.topics.deep_view()),
                        );
                        lemma_len16_be16(q.pid.spec_value() as int);
                        assert(buf@[start] == pid_bytes(q.pid)[0]);
                        assert(buf@[start + 1] == pid_bytes(q.pid)[1]);
                    }
                }
                return Err(e);
            },
        };
        let mut topics: Vec<String> = Vec::new();
        while *offset < payload_end
            invariant
                start + 2 <= *offset <= payload_end <= buf@.len(),
                payload_end == start + remaining_len,
                remaining_len <= 268435455,
                region == buf@.subrange(start, start + remaining_len as int),
                buf@.subrange(start, start + 2) == pid_bytes(pid),
                pid.spec_value() != 0,
                buf@.subrange(start + 2, *offset as int) == filters_bytes(topics.deep_view()),
                forall|j: int| 0 <= j < topics@.len() ==> valid_string(#[trigger] topics@[j]@),
                forall|q: Unsubscribe|
                    (valid_packet(Packet::Unsubscribe(q)) && region == pid_bytes(q.pid)
                        + #[trigger] filters_bytes(q.topics.deep_view())) ==> (topics@.len()
                        <= q.topics@.len() && *offset == start + 2 + filters_bytes(
                        q.topics.deep_view().take(topics@.len() as int),
                    ).len() && (forall|j: int|
                        0 <= j < topics@.len() ==> #[trigger] topics@[j]@
                            == q.topics.deep_view()[j])),
            decreases payload_end - *offset,
        {
            let ghost off0 = *offset as int;
            let ghost n = topics@.len() as int;
            proof {
                assert forall|q: Unsubscribe|
                    (valid_packet(Packet::Unsubscribe(q)) && region == pid_bytes(q.pid)
                        + #[trigger] filters_bytes(q.topics.deep_view())) implies (n
                    < q.topics@.len() && buf@.subrange(
                    off0,
                    off0 + str_bytes(q.topics.deep_view()[n]).len() as int,
                ) == str_bytes(q.topics.deep_view()[n]) && off0 + str_bytes(
                    q.topics.deep_view()[n],
                ).len() <= payload_end && valid_string(q.topics.deep_view()[n])) by {
                    let qf = q.topics.deep_view();
                    lemma_split_region(buf@, start, pid_bytes(q.pid), filters_bytes(qf));
                    if n == qf.len() {
                        assert(qf.take(n) =~= qf);
                        assert(false);
                    }
                    lemma_filters_bytes_split_at(qf, n);
                    lemma_split_region(
                        buf@,
                        start + 2,
                        filters_bytes(qf.take(n)),
                        str_bytes(qf[n]) + filters_bytes(qf.skip(n + 1)),
                    );
                    lemma_split_region(buf@, off0, str_bytes(qf[n]), filters_bytes(qf.skip(n + 1)));
                    assert(valid_string(qf[n]));
                }
            }
            let t = match read_str(buf, offset, payload_end) {
                Ok(t) => t,
                Err(e) => {
                    proof {
                        assert forall|q: Unsubscribe|
                            (valid_packet(Packet::Unsubscribe(q)) && region == pid_bytes(q.pid)
                                + #[trigger] filters_bytes(q.topics.deep_view())) implies false by {
                            let qf = q.topics.deep_view();
                            let f = qf[n];
                            lemma_len16_be16(vstd::utf8::encode_utf8(f).len() as int);
                            assert(buf@[off0] == str_bytes(f)[0]);
                            assert(buf@[off0 + 1] == str_bytes(f)[1]);
                            lemma_split_region(buf@, off0, crate::wire::len16(
                                vstd::utf8::encode_utf8(f).len() as int,
                            ), vstd::utf8::encode_utf8(f));
                            vstd::utf8::encode_utf8_valid_utf8(f);
                        }
                    }
                    return Err(e);
                },
            };
            proof {
                assert(buf@.subrange(start + 2, *offset as int) =~= buf@.subrange(start + 2, off0)
                    + buf@.subrange(off0, *offset as int));
                assert forall|q: Unsubscribe|
                    (valid_packet(Packet::Unsubscribe(q)) && region == pid_bytes(q.pid)
                        + #[trigger] filters_bytes(q.topics.deep_view())) implies (n + 1
                    <= q.topics@.len() && *offset == start + 2 + filters_bytes(
                    q.topics.deep_view().take(n + 1),
                ).len() && t@ == q.topics.deep_view()[n]) by {
                    let qf = q.topics.deep_view();
                    let f = qf[n];
                    lemma_len16_be16(vstd::utf8::encode_utf8(f).len() as int);
                    assert(buf@[off0] == str_bytes(f)[0]);
                    assert(buf@[off0 + 1] == str_bytes(f)[1]);
                    lemma_split_region(buf@, off0, crate::wire::len16(
                        vstd::utf8::encode_utf8(f).len() as int,
                    ), vstd::utf8::encode_utf8(f));
                    vstd::utf8::encode_utf8_valid_utf8(f);
                    vstd::utf8::encode_utf8_decode_utf8(f);
                    assert(t@ == f);
                    assert(str_bytes(t@) == str_bytes(f));
                    assert(qf.take(n + 1) =~= qf.take(n).push(qf[n]));
                    lemma_filters_bytes_snoc(qf.take(n), qf[n]);
                }
                lemma_filters_bytes_snoc(topics.deep_view(), t@);
            }
            let ghost pre = topics.deep_view();
            topics.push(t);
            proof {
                assert(topics.deep_view() =~= pre.push(t@));
            }
        }
        let u = Unsubscribe { pid, topics };
        proof {
            assert(region =~= buf@.subrange(start, start + 2) + buf@.subrange(
                start + 2,
                payload_end as int,
            ));
            assert(region == pid_bytes(u.pid) + filters_bytes(u.topics.deep_view()));
            assert forall|q: Unsubscribe|
                (valid_packet(Packet::Unsubscribe(q)) && region == pid_bytes(q.pid)
                    + #[trigger] filters_bytes(q.topics.deep_view())) implies same_unsubscribe(
                u,
                q,
            ) by {
                let qf = q.topics.deep_view();
                let n = topics@.len() as int;
                lemma_split_region(buf@, start, pid_bytes(q.pid), filters_bytes(qf));
                lemma_pid_bytes_inj(pid, q.pid);
                assert(qf =~= qf.take(n) + qf.skip(n));
                crate::wire::lemma_filters_bytes_append(qf.take(n), qf.skip(n));
                if qf.skip(n).len() > 0 {
                    assert(filters_bytes(qf.skip(n)).len() >= str_bytes(qf.skip(n)[0]).len());
                    assert(false);
                }
                assert(qf.len() == n);
                assert(u.topics.deep_view() =~= qf);
            }
        }
        Ok(u)
    }

    /// Appends this packet's complete wire encoding and returns how many
    /// bytes were written.
    #[verifier::loop_isolation(false)]
    pub(crate) fn to_buffer(&self, out: &mut Vec<u8>) -> (r: Result<usize, Error>)
        ensures
            r is Ok <==> encodable(Packet::Unsubscribe(*self)),
            r matches Ok(n) ==> final(out)@ == old(out)@ + wire(Packet::Unsubscribe(*self)) && n
                == wire(Packet::Unsubscribe(*self)).len(),
            r is Err ==> final(out)@ == old(out)@ && r == Result::<usize, Error>::Err(
                Error::InvalidLength,
            ),
    {
        let mut body: Vec<u8> = Vec::new();
        self.pid.to_buffer(&mut body);
        let mut i: usize = 0;
        while i < self.topics.len()
            invariant
                i <= self.topics@.len(),
                body@ == pid_bytes(self.pid) + filters_bytes(self.topics.deep_view().take(i as int)),
                forall|j: int| 0 <= j < i ==> valid_string(#[trigger] self.topics@[j]@),
            decreases self.topics@.len() - i,
        {
            match write_str(&self.topics[i], &mut body) {
                Ok(()) => {},
                Err(e) => {
                    return Err(e);
                },
            }
            proof {
                assert(self.topics.deep_view().take(i + 1) =~= self.topics.deep_view().take(
                    i as int,
                ).push(self.topics.deep_view()[i as int]));
                lemma_filters_bytes_snoc(
                    self.topics.deep_view().take(i as int),
                    self.topics.deep_view()[i as int],
                );
                assert(body@ =~= pid_bytes(self.pid) + filters_bytes(
                    self.topics.deep_view().take(i + 1),
                ));
            }
            i = i + 1;
        }
        proof {
            assert(self.topics.deep_view().take(self.topics@.len() as int)
                =~= self.topics.deep_view());
        }
        let r = write_frame(0xA2, body, out);
        proof {
            if r is Ok {
                assert(final(out)@ =~= old(out)@ + wire(Packet::Unsubscribe(*self)));
            }
        }
        r
    }
}

} // verus!
