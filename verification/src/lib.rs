//! A codec for MQTT 3.1.1 control packets.
//!
//! The crate translates between an in-memory [`Packet`](packet::Packet) value
//! and its wire byte encoding.  It performs no I/O itself: `decode` consumes
//! bytes from the front of a caller-supplied buffer and `encode` appends bytes
//! to one, so the codec runs identically under any transport.
//!
//! Decoding is streaming-safe: when the buffer holds fewer bytes than one
//! complete packet, `decode` returns `Ok(None)` and leaves the buffer
//! untouched, so the caller can supply more bytes and retry.  Malformed input
//! is reported as an `Err` and never causes a panic.

pub mod bounded;
pub mod connect;
pub mod decoder;
pub mod encoder;
pub mod packet;
pub mod publish;
pub mod subscribe;
pub mod utils;
pub mod wire;

pub use connect::{Connack, Connect, ConnectReturnCode, LastWill, Protocol};
pub use decoder::{decode, read_header, read_length, Header};
pub use encoder::encode;
pub use packet::{Packet, PacketType};
pub use publish::Publish;
pub use subscribe::{Suback, Subscribe, SubscribeReturnCodes, SubscribeTopic, Unsubscribe};
pub use utils::{Error, Pid, QoS, QosPid};
