pub mod codec;
pub mod error;
pub mod outside;
pub mod store;
pub mod vacant;

pub use store::Storage;
pub use vacant::VacantBlock;
pub use error::{DataFormatError, IoErrorKind, StorageError};
