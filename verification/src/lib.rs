//! A libp2p transport wrapper that records every peer, connection, stream
//! and byte it carries as a numbered event log.
pub mod bytes;
pub mod varint;
pub mod wire;
pub mod messages;
pub mod intern;
pub mod state;
pub mod stream;
pub mod clock;
pub mod emitter;
pub mod muxer;
pub mod transport;
pub mod config;

pub use config::WiretapConfig;
pub use transport::connection_established;
pub mod proto;
pub mod decode;
pub mod readers;
