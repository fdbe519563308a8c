pub mod backend;
pub mod file_backend;
pub mod mem_backend;
pub mod wire;

pub use backend::Row;
pub use backend::StorageBackend;
pub use backend::StorageError;
pub use file_backend::FileStorageBackend;
pub use mem_backend::MemStorageBackend;
