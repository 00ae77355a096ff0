//! Constant-time Base64 encoding and decoding.
//!
//! Both directions of the character mapping are computed with branch-free
//! arithmetic, so that execution time does not depend on the value of the
//! bytes being transcoded.

pub mod base64;
pub mod chars;
pub mod error;
pub mod laws;

pub use base64::base64_decode;
pub use base64::base64_decoded_max_size;
pub use base64::base64_encode;
pub use base64::base64_encoded_max_size;
pub use chars::decode_base64_char;
pub use chars::encode_base64_char;
pub use error::ErrorKind;
