//! The cache itself: the active epochs, each with one slot per authorized
//! account, and the pipeline that admits new records into the slots.

mod assoc;
pub mod cache;
pub mod epochs;
pub mod error;
pub mod model;
pub mod theorems;

pub use cache::{check_shape, check_signatures, Cache};
pub use epochs::Epochs;
pub use error::Error;
