//! The encode half of the codec: primitive field writers and the top-level
//! `encode` entry point.

use vstd::prelude::*;
use vstd::string::StrSliceExecFns;

use crate::packet::Packet;
use crate::utils::{Error, Pid, QosPid};
use crate::wire::{bin_bytes, encodable, len16, pid_bytes, str_bytes, valid_bin, valid_packet, valid_string, varint, wire, MAX_REMAINING_LENGTH};

verus! {

/// Appends a 16-bit value as two big-endian bytes.
pub fn write_u16(v: u16, out: &mut Vec<u8>)
    ensures
        final(out)@ == old(out)@ + len16(v as int),
{
    out.push((v / 256) as u8);
    out.push((v % 256) as u8);
    proof {
        assert(final(out)@ =~= old(out)@ + len16(v as int));
    }
}

/// Appends a length-prefixed UTF-8 string field; fails, appending nothing,
/// when the string's byte encoding exceeds the 2-byte prefix's range.
pub fn write_str(s: &String, out: &mut Vec<u8>) -> (r: Result<(), Error>)
    ensures
        r is Ok <==> valid_string(s@),
        r is Ok ==> final(out)@ == old(out)@ + str_bytes(s@),
        r is Err ==> final(out)@ == old(out)@ && r == Result::<(), Error>::Err(
            Error::InvalidLength,
        ),
{
    let mut bytes = s.as_str().as_bytes_vec();
    if bytes.len() > 65535 {
        return Err(Error::InvalidLength);
    }
    let ghost b = bytes@;
    write_u16(bytes.len() as u16, out);
    out.append(&mut bytes);
    proof {
        assert(final(out)@ =~= old(out)@ + str_bytes(s@));
    }
    Ok(())
}

/// Appends a length-prefixed binary field; fails, appending nothing, when
/// the byte count exceeds the 2-byte prefix's range.
pub fn write_bin(bin: &Vec<u8>, out: &mut Vec<u8>) -> (r: Result<(), Error>)
    ensures
        r is Ok <==> valid_bin(bin@),
        r is Ok ==> final(out)@ == old(out)@ + bin_bytes(bin@),
        r is Err ==> final(out)@ == old(out)@ && r == Result::<(), Error>::Err(
            Error::InvalidLength,
        ),
{
    if bin.len() > 65535 {
        return Err(Error::InvalidLength);
    }
    write_u16(bin.len() as u16, out);
    let mut i: usize = 0;
    while i < bin.len()
        invariant
            i <= bin@.len(),
            out@ == old(out)@ + len16(bin@.len() as int) + bin@.subrange(0, i as int),
        decreases bin@.len() - i,
    {
        out.push(bin[i]);
        i = i + 1;
        proof {
            assert(out@ =~= old(out)@ + len16(bin@.len() as int) + bin@.subrange(0, i as int));
        }
    }
    proof {
        assert(bin@.subrange(0, bin@.len() as int) =~= bin@);
        assert(final(out)@ =~= old(out)@ + bin_bytes(bin@));
    }
    Ok(())
}

/// Appends a complete packet frame -- head byte, Remaining Length, body --
/// and returns how many bytes were written.  Fails, appending nothing, when
/// the body exceeds the Remaining Length field's range.
pub fn write_frame(head: u8, body: Vec<u8>, out: &mut Vec<u8>) -> (r: Result<usize, Error>)
    ensures
        body@.len() <= MAX_REMAINING_LENGTH ==> (r matches Ok(n) && final(out)@ == old(out)@
            + seq![head] + varint(body@.len() as int) + body@ && n == 1 + varint(
            body@.len() as int,
        ).len() + body@.len()),
        body@.len() > MAX_REMAINING_LENGTH ==> final(out)@ == old(out)@ && r == Result::<
            usize,
            Error,
        >::Err(Error::InvalidLength),
{
    if body.len() > MAX_REMAINING_LENGTH {
        return Err(Error::InvalidLength);
    }
    out.push(head);
    let w = write_length(body.len(), out);
    let mut b = body;
    let blen = b.len();
    let ghost bb = b@;
    proof {
        crate::wire::lemma_varint_len(blen as int);
    }
    out.append(&mut b);
    proof {
        assert(final(out)@ =~= old(out)@ + seq![head] + varint(blen as int) + bb);
    }
    Ok(1 + w + blen)
}

/// Appends a Remaining Length field to `out` and returns how many bytes it
/// took (1 through 4).
pub fn write_length(len: usize, out: &mut Vec<u8>) -> (w: usize)
    requires
        len <= MAX_REMAINING_LENGTH,
    ensures
        final(out)@ == old(out)@ + varint(len as int),
        w == varint(len as int).len(),
{
    let ghost start = old(out)@;
    let start_len = out.len();
    let mut n = len;
    while n >= 128
        invariant
            n <= len,
            start.len() <= out@.len(),
            out@.subrange(0, start.len() as int) == start,
            varint(len as int) == out@.skip(start.len() as int) + varint(n as int),
        decreases n,
    {
        let b: u8 = (n % 128 + 128) as u8;
        proof {
            assert(varint(n as int) == seq![b] + varint(n as int / 128));
            assert((out@ + seq![b]).skip(start.len() as int) == out@.skip(start.len() as int)
                + seq![b]);
            assert((out@.skip(start.len() as int) + seq![b]) + varint(n as int / 128) == out@.skip(
                start.len() as int,
            ) + (seq![b] + varint(n as int / 128)));
        }
        out.push(b);
        n = n / 128;
    }
    proof {
        assert(varint(n as int) == seq![n as u8]);
        assert((out@ + seq![n as u8]).skip(start.len() as int) == out@.skip(start.len() as int)
            + seq![n as u8]);
    }
    out.push(n as u8);
    proof {
        assert(out@ == start + out@.skip(start.len() as int));
    }
    out.len() - start_len
}


/// Appends a packet that carries a bare identifier: head byte, Remaining
/// Length 2, then the identifier's two bytes.
fn write_pid_packet(head: u8, pid: Pid, out: &mut Vec<u8>) -> (w: usize)
    ensures
        final(out)@ == old(out)@ + seq![head] + varint(2) + pid_bytes(pid),
        w == 2 + pid_bytes(pid).len(),
{
    let mut body: Vec<u8> = Vec::new();
    pid.to_buffer(&mut body);
    let r = match write_frame(head, body, out) {
        Ok(n) => n,
        Err(_) => 0,
    };
    proof {
        assert(varint(2) == seq![2u8]);
    }
    r
}

/// Encodes one packet, appending its complete wire encoding to `buffer`.
///
/// Succeeds exactly when every string and binary field fits its 2-byte
/// length prefix and the body fits a Remaining Length field; on failure
/// nothing is appended.
#[verifier::rlimit(100)]
#[verifier::spinoff_prover]
pub fn encode(packet: &Packet, buffer: &mut Vec<u8>) -> (r: Result<(), Error>)
    ensures
        r is Ok <==> encodable(*packet),
        r is Ok ==> final(buffer)@ == old(buffer)@ + wire(*packet),
        r is Err ==> final(buffer)@ == old(buffer)@ && r == Result::<(), Error>::Err(
            Error::InvalidLength,
        ),
{
    match packet {
        Packet::Connect(c) => {
            let rr = c.to_buffer(buffer);
            proof {
                assert(*packet == Packet::Connect(*c));
                assert(crate::wire::pids_ok(*packet));
            }
            match rr {
                Ok(_) => Ok(()),
                Err(e) => Err(e),
            }
        },
        Packet::Connack(c) => {
            proof {
                assert(crate::wire::pids_ok(*packet));
            }
            match c.to_buffer(buffer) {
                Ok(_) => Ok(()),
                Err(e) => Err(e),
            }
        },
        Packet::Publish(pb) => {
            proof {
                match pb.qospid {
                    QosPid::AtMostOnce => {},
                    QosPid::AtLeastOnce(pid) => {
                        use_type_invariant(pid);
                    },
                    QosPid::ExactlyOnce(pid) => {
                        use_type_invariant(pid);
                    },
                }
            }
            match pb.to_buffer(buffer) {
                Ok(_) => Ok(()),
                Err(e) => Err(e),
            }
        },
        Packet::Puback(pid) => {
            proof {
                use_type_invariant(*pid);
            }
            write_pid_packet(0x40, *pid, buffer);
            proof {
                assert(final(buffer)@ =~= old(buffer)@ + wire(*packet));
            }
            Ok(())
        },
        Packet::Pubrec(pid) => {
            proof {
                use_type_invariant(*pid);
            }
            write_pid_packet(0x50, *pid, buffer);
            proof {
                assert(final(buffer)@ =~= old(buffer)@ + wire(*packet));
            }
            Ok(())
        },
        Packet::Pubrel(pid) => {
            proof {
                use_type_invariant(*pid);
            }
            write_pid_packet(0x62, *pid, buffer);
            proof {
                assert(final(buffer)@ =~= old(buffer)@ + wire(*packet));
            }
            Ok(())
        },
        Packet::Pubcomp(pid) => {
            proof {
                use_type_invariant(*pid);
            }
            write_pid_packet(0x70, *pid, buffer);
            proof {
                assert(final(buffer)@ =~= old(buffer)@ + wire(*packet));
            }
            Ok(())
        },
        Packet::Subscribe(sub) => {
            proof {
                use_type_invariant(sub.pid);
            }
            match sub.to_buffer(buffer) {
                Ok(_) => Ok(()),
                Err(e) => Err(e),
            }
        },
        Packet::Suback(sa) => {
            proof {
                use_type_invariant(sa.pid);
            }
            match sa.to_buffer(buffer) {
                Ok(_) => Ok(()),
                Err(e) => Err(e),
            }
        },
        Packet::Unsubscribe(u) => {
            proof {
                use_type_invariant(u.pid);
            }
            match u.to_buffer(buffer) {
                Ok(_) => Ok(()),
                Err(e) => Err(e),
            }
        },
        Packet::Unsuback(pid) => {
            proof {
                use_type_invariant(*pid);
            }
            write_pid_packet(0xB0, *pid, buffer);
            proof {
                assert(final(buffer)@ =~= old(buffer)@ + wire(*packet));
            }
            Ok(())
        },
        Packet::Pingreq => {
            let body: Vec<u8> = Vec::new();
            match write_frame(0xC0, body, buffer) {
                Ok(_) => {},
                Err(_) => {},
            }
            proof {
                assert(varint(0) == seq![0u8]);
                assert(final(buffer)@ =~= old(buffer)@ + wire(*packet));
            }
            Ok(())
        },
        Packet::Pingresp => {
            let body: Vec<u8> = Vec::new();
            match write_frame(0xD0, body, buffer) {
                Ok(_) => {},
                Err(_) => {},
            }
            proof {
                assert(varint(0) == seq![0u8]);
                assert(final(buffer)@ =~= old(buffer)@ + wire(*packet));
            }
            Ok(())
        },
        Packet::Disconnect => {
            let body: Vec<u8> = Vec::new();
            match write_frame(0xE0, body, buffer) {
                Ok(_) => {},
                Err(_) => {},
            }
            proof {
                assert(varint(0) == seq![0u8]);
                assert(final(buffer)@ =~= old(buffer)@ + wire(*packet));
            }
            Ok(())
        },
    }
}

} // verus!
