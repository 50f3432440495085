//! A verified wire-format codec for a name-resolution protocol message:
//! it parses raw network bytes into a structured representation and encodes
//! the structure back, including compressed-name resolution on the way in.

pub mod codec;
pub mod laws;
pub mod message;
pub mod parser;

pub use codec::DnsCodec;
pub use codec::EncodeError;

pub use parser::DecodeError;

pub use message::Flags;
pub use message::Header;
pub use message::Message;
pub use message::Name;
pub use message::Opcode;
pub use message::Question;
pub use message::Rcode;
pub use message::ResourceRecord;
