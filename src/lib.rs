//! Fixed-width hardware addresses: 48-bit (`MacAddr`) and 64-bit (`MacAddr8`)
//! values with parsing, formatting, classification and conversion.

mod addr;
mod addr8;
mod error;
pub mod order;
pub mod text;

pub use addr::MacAddr;
pub use addr8::MacAddr8;
pub use error::ParseMacAddrError;
