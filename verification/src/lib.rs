pub mod bytes_support;
pub mod error;
pub mod field;
pub mod message;
pub mod wire;

pub use crate::field::Field as RapidTlvField;
pub use crate::field::FieldType as RapidTlvFieldType;
pub use crate::message::EventType as RapidTlvEventType;
pub use crate::message::Message as RapidTlvMessage;

pub use crate::error::Error as RapidTlvError;
pub use crate::error::ErrorCode;
