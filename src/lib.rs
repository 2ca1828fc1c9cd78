//! Memcomparable key encoding: order-preserving encodings of integers and
//! byte strings, and a versioned key type built on them.

pub mod error;
pub mod order;
pub mod number;
pub mod bytes;
pub mod key;
pub mod schema;
pub mod scan;
pub mod drain;

pub use error::{Error, Result};
pub use key::Key;
pub use scan::{ScannerConfig, DIST_QT1_KEY, DIST_QT3_KEY, LARGEST_KEY_STR, LOWEST_KEY_STR};
pub use drain::ValueType;
