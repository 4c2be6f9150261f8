pub mod bits;
pub mod block;
pub mod code;
mod decode;
mod encode;
mod error;
pub mod laws;

pub use code::Code;
pub use decode::decode;
pub use encode::encode;
pub use error::HammingError;
pub use error::HammingError as Error;
