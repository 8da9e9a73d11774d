//! Verified core of the mmo voice tools: the Mumble variable-length integer
//! format, control-channel packet framing, voice packets and PCM audio, the
//! voice client's packet handling, and the UDP relay's client table.

pub mod audio;
pub mod client;
pub mod config;
mod endian;
mod error;
pub mod packet;
pub mod relay;
pub mod varint;

pub use config::{Aws, Config};
pub use error::{err_str, Error, ErrorKind};
pub use relay::{Client, LineCodec};
pub use varint::VarintReader;
