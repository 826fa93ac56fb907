pub mod decode;
pub mod format;
pub mod laws;
pub mod store;

pub use decode::{decode_ascii_uint, decode_header, decode_record, decode_terminated_text, Header, Record};
pub use format::{FormatError, HeaderFault, LoadError};
pub use store::Store;
