//! The Publish packet payload and its codec.

use vstd::prelude::*;
use vstd::slice::{slice_subrange, slice_to_vec};

use crate::decoder::read_str;
use crate::encoder::{write_frame, write_str};
use crate::packet::Packet;
use crate::utils::{Error, Pid, QoS, QosPid};
use crate::wire::{
    encodable, lemma_len16_be16, lemma_pid_bytes_inj, lemma_publish_flags_decomp,
    lemma_split_region, lemma_str_at, pid_bytes, publish_body, publish_flags, qospid_bytes,
    same_publish, str_bytes, valid_packet, valid_string, wire,
};

verus! {

/// Publish packet payload (MQTT 3.3).
///
/// The packet identifier travels inside [`QosPid`], so it is present exactly
/// when the quality-of-service level calls for one.  The payload bytes are
/// not length-prefixed on the wire: they run to the end of the packet's
/// declared Remaining Length.
#[derive(Debug, Clone, PartialEq)]
pub struct Publish {
    pub dup: bool,
    pub qospid: QosPid,
    pub retain: bool,
    pub topic_name: String,
    pub payload: Vec<u8>,
}

impl Publish {
    /// Reads a Publish body.  `flags` is the header's flags nibble: dup bit
    /// 3, quality of service bits 2-1, retain bit 0.
    #[verifier::rlimit(60)]
    pub(crate) fn from_buffer(flags: u8, remaining_len: usize, buf: &Vec<u8>, offset: &mut usize)
        -> (r: Result<Publish, Error>)
        requires
            *old(offset) + remaining_len <= buf@.len(),
            remaining_len <= 268435455,
            flags < 16,
        ensures
            ({
                let start = *old(offset) as int;
                let region = buf@.subrange(start, start + remaining_len as int);
                &&& (r matches Ok(pb) ==> *final(offset) == start + remaining_len && region
                    == publish_body(pb) && valid_packet(Packet::Publish(pb)) && publish_flags(pb)
                    == flags as int)
                &&& (forall|q: Publish|
                    (valid_packet(Packet::Publish(q)) && region == #[trigger] publish_body(q)
                        && publish_flags(q) == flags as int) ==> (r matches Ok(pb) && same_publish(
                        pb,
                        q,
                    )))
            }),
    {
        let ghost start = *old(offset) as int;
        let ghost region = buf@.subrange(start, start + remaining_len as int);
        let buf_len = buf.len();
        let payload_end = *offset + remaining_len;
        let dup = flags / 8 == 1;
        let retain = flags % 2 == 1;
        let qos_bits = (flags / 2) % 4;
        let qos = match QoS::from_u8(qos_bits) {
            Ok(q) => q,
            Err(e) => {
                proof {
                    assert forall|q: Publish|
                        (valid_packet(Packet::Publish(q)) && region == #[trigger] publish_body(q)
                            && publish_flags(q) == flags as int) implies false by {
                        lemma_publish_flags_decomp(q);
                    }
                }
                return Err(e);
            },
        };
        let topic_name = match read_str(buf, offset, payload_end) {
            Ok(s) => s,
            Err(e) => {
                proof {
                    assert forall|q: Publish|
                        (valid_packet(Packet::Publish(q)) && region == #[trigger] publish_body(q)
                            && publish_flags(q) == flags as int) implies false by {
                        assert(publish_body(q) =~= str_bytes(q.topic_name@) + (qospid_bytes(
                            q.qospid,
                        ) + q.payload@));
                        lemma_split_region(
                            buf@,
                            start,
                            str_bytes(q.topic_name@),
                            qospid_bytes(q.qospid) + q.payload@,
                        );
                        lemma_str_at(buf@, start, q.topic_name@);
                    }
                }
                return Err(e);
            },
        };
        let ghost mid = *offset as int;
        let qospid = if qos_bits == 0 {
            QosPid::AtMostOnce
        } else {
            let pid = match Pid::from_buffer(buf, offset, payload_end) {
                Ok(p) => p,
                Err(e) => {
                    proof {
                        assert forall|q: Publish|
                            (valid_packet(Packet::Publish(q)) && region == #[trigger] publish_body(
                                q,
                            ) && publish_flags(q) == flags as int) implies false by {
                            lemma_publish_flags_decomp(q);
                            assert(publish_body(q) =~= str_bytes(q.topic_name@) + (qospid_bytes(
                                q.qospid,
                            ) + q.payload@));
                            lemma_split_region(
                                buf@,
                                start,
                                str_bytes(q.topic_name@),
                                qospid_bytes(q.qospid) + q.payload@,
                            );
                            lemma_str_at(buf@, start, q.topic_name@);
                            crate::wire::lemma_str_bytes_prefix_eq(
                                buf@,
                                start,
                                topic_name@,
                                q.topic_name@,
                            );
                            lemma_split_region(buf@, mid, qospid_bytes(q.qospid), q.payload@);
                            match q.qospid {
                                QosPid::AtMostOnce => {},
                                QosPid::AtLeastOnce(qp) => {
                                    lemma_len16_be16(qp.spec_value() as int);
                                    assert(buf@[mid] == pid_bytes(qp)[0]);
                                    assert(buf@[mid + 1] == pid_bytes(qp)[1]);
                                },
                                QosPid::ExactlyOnce(qp) => {
                                    lemma_len16_be16(qp.spec_value() as int);
                                    assert(buf@[mid] == pid_bytes(qp)[0]);
                                    assert(buf@[mid + 1] == pid_bytes(qp)[1]);
                                },
                            }
                        }
                    }
                    return Err(e);
                },
            };
            if qos_bits == 1 {
                QosPid::AtLeastOnce(pid)
            } else {
                QosPid::ExactlyOnce(pid)
            }
        };
        let payload = slice_to_vec(slice_subrange(buf.as_slice(), *offset, payload_end));
        let ghost mid2 = *offset as int;
        *offset = payload_end;
        let pb = Publish { dup, qospid, retain, topic_name, payload };
        proof {
            assert(region =~= buf@.subrange(start, mid) + buf@.subrange(mid, mid2)
                + buf@.subrange(mid2, payload_end as int));
            assert(buf@.subrange(mid, mid2) == qospid_bytes(pb.qospid));
            assert(region == publish_body(pb));
            lemma_publish_flags_decomp(pb);
            assert(publish_flags(pb) == flags as int);
            assert forall|q: Publish|
                (valid_packet(Packet::Publish(q)) && region == #[trigger] publish_body(q)
                    && publish_flags(q) == flags as int) implies same_publish(pb, q) by {
                lemma_publish_flags_decomp(q);
                assert(publish_body(q) =~= str_bytes(q.topic_name@) + (qospid_bytes(q.qospid)
                    + q.payload@));
                lemma_split_region(
                    buf@,
                    start,
                    str_bytes(q.topic_name@),
                    qospid_bytes(q.qospid) + q.payload@,
                );
                lemma_str_at(buf@, start, q.topic_name@);
                crate::wire::lemma_str_bytes_prefix_eq(buf@, start, topic_name@, q.topic_name@);
                lemma_split_region(buf@, mid, qospid_bytes(q.qospid), q.payload@);
crate::utils::lemma_qos_byte_inj(pb.qospid.spec_qos(), q.qospid.spec_qos());
                match q.qospid {
                    QosPid::AtMostOnce => {
                        assert(pb.qospid == q.qospid);
                    },
                    QosPid::AtLeastOnce(qp) => {
                        assert(buf@.subrange(mid, mid + 2) == pid_bytes(qp));
                        match pb.qospid {
                            QosPid::AtLeastOnce(p2) => {
                                lemma_pid_bytes_inj(p2, qp);
                            },
                            _ => {
                                assert(false);
                            },
                        }
                    },
                    QosPid::ExactlyOnce(qp) => {
                        assert(buf@.subrange(mid, mid + 2) == pid_bytes(qp));
                        match pb.qospid {
                            QosPid::ExactlyOnce(p2) => {
                                lemma_pid_bytes_inj(p2, qp);
                            },
                            _ => {
                                assert(false);
                            },
                        }
                    },
                }
                assert(pb.payload@ == q.payload@);
            }
        }
        Ok(pb)
    }

    /// Appends this packet's complete wire encoding and returns how many
    /// bytes were written.
    pub(crate) fn to_buffer(&self, out: &mut Vec<u8>) -> (r: Result<usize, Error>)
        ensures
            r is Ok <==> encodable(Packet::Publish(*self)),
            r matches Ok(n) ==> final(out)@ == old(out)@ + wire(Packet::Publish(*self)) && n
                == wire(Packet::Publish(*self)).len(),
            r is Err ==> final(out)@ == old(out)@ && r == Result::<usize, Error>::Err(
                Error::InvalidLength,
            ),
    {
        let mut body: Vec<u8> = Vec::new();
        match write_str(&self.topic_name, &mut body) {
            Ok(()) => {},
            Err(e) => {
                return Err(e);
            },
        }
        match self.qospid {
            QosPid::AtMostOnce => {},
            QosPid::AtLeastOnce(pid) => pid.to_buffer(&mut body),
            QosPid::ExactlyOnce(pid) => pid.to_buffer(&mut body),
        }
        body.extend_from_slice(self.payload.as_slice());
        proof {
            assert(body@ =~= publish_body(*self));
        }
        let flags: u8 = (if self.dup {
            8
        } else {
            0
        }) + self.qospid.qos().to_u8() * 2 + (if self.retain {
            1
        } else {
            0
        });
        let r = write_frame(0x30 + flags, body, out);
        proof {
            assert(0x30 + flags as int == crate::wire::head_byte(Packet::Publish(*self)));
            if r is Ok {
                assert(final(out)@ =~= old(out)@ + wire(Packet::Publish(*self)));
            }
        }
        r
    }
}

} // verus!
