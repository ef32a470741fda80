//! The wire protocol between client and server: one JSON message per
//! connection in each direction.
pub mod errors;
pub mod message;

pub use errors::Error;
pub use errors::Result;
pub use message::KvContractMessage;
pub use message::Request;
pub use message::Response;
