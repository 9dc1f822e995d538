//! Bills for OpenCode sessions.
//!
//! The library holds everything about a bill that does not touch the outside world: which session
//! a reference names, what its messages used, what the models cost and how the bill reads.
pub mod bill;
pub mod binary64;
pub mod context;
pub mod count;
pub mod decimal;
pub mod error;
pub mod json;
pub mod legacy;
pub mod markdown;
pub mod message;
pub mod ordered;
pub mod pricing;
pub mod session;
pub mod table;
pub mod text;
pub mod usage;

pub use bill::generate_bill;
pub use context::{DataDirectorySet, MissingDataDirectory, StorageContext, StorageContextBuilder};
pub use error::BillError;
