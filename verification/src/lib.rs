//! Core of a minimal BitTorrent client: the bencode codec, the metainfo model,
//! the peer-wire message codec, the handshake and the single-piece download
//! engine. Every function is stated over a mathematical model and proved
//! against it.
//!
//! - `bencode`, `bencode_decode`, `bencode_encode`: bencode values, what their
//!   encoding is, and the executable codec. `bencode_laws`, `bencode_inverse`
//!   and `bencode_order` hold what is proved of it: the round trip in both
//!   directions, and that the encoding does not depend on the order in which
//!   a dictionary stores its entries.
//! - `metainfo`, `metainfo_parse`, `metainfo_encode`: a torrent's metainfo as
//!   typed records, read out of bencode and written back, and the info-hash.
//!   `metainfo_laws` holds what is proved of them.
//! - `hash`: the list of piece digests, and SHA-1.
//! - `message`: peer messages and their framing over a byte buffer;
//!   `message_laws` holds what is proved of the framing. `buffer` states what
//!   the byte buffer does.
//! - `net`: the handshake, block requests and blocks, and what goes to and
//!   comes from the tracker.
//! - `download`: the download of one piece as a state machine;
//!   `download_laws` holds what is proved of it.
//! - `wire`: big-endian numbers and small helpers on bytes.

pub mod wire;
pub mod buffer;
pub mod bencode;
pub mod bencode_decode;
pub mod bencode_encode;
pub mod bencode_inverse;
pub mod bencode_laws;
pub mod bencode_order;
pub mod download;
pub mod download_laws;
pub mod hash;
pub mod message;
pub mod message_laws;
pub mod metainfo;
pub mod metainfo_encode;
pub mod metainfo_laws;
pub mod metainfo_parse;
pub mod net;
