pub mod codec;
pub mod record;
pub mod storage;
pub mod store;

pub use record::{CallerId, Choice, Product, ProductError};
pub use store::ProductStore;
