pub mod block;
pub mod codec;
pub mod errors;
pub mod round;
pub mod sbox;
pub mod stream;

pub use crate::codec::{bytes_to_str, str_to_bytes};
pub use crate::errors::CipherError;
pub use crate::stream::{decrypt, encrypt};
