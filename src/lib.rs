pub mod buffer;
pub mod buffer_pool;
pub mod codec;
pub mod reader;
pub mod readiness;
pub mod session;

pub use buffer_pool::BufferPool;
pub use session::Session;
