//! One message-identity and validation core shared by several foreign
//! calling conventions: construction under a process-wide id counter, a
//! strict JSON encoding of messages, and the mapping of outcomes to callers.

pub mod decode;
pub mod engine;
pub mod json;
pub mod message;

pub use decode::decode_message;
pub use engine::{
    create_message, dispatch, report_line, send_message, send_message_json, status_code, IdCounter,
};
pub use json::encode_message;
pub use message::{AppError, Message, UniFfiTag};
