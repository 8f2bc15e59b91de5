//! The DNS wire format: header, names, questions, resource records and
//! whole messages.

pub mod answer;
pub mod buffer;
pub mod error;
pub mod forward;
pub mod header;
pub mod label;
pub mod laws;
pub mod question;
pub mod record;
pub mod text;

pub use answer::Answer;
pub use buffer::octets;
pub use error::DnsError;
pub use header::Header;
pub use label::NameResult;
pub use question::Question;
pub use record::Record;
