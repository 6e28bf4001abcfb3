pub mod cache;
pub mod digits;
pub mod keys;
pub mod model;
pub mod snapshot;
pub mod text;

pub use cache::Cache;
pub use cache::CacheEntry;
pub use cache::CacheError;
pub use cache::CacheLRU;
pub use keys::CacheKey;
pub use keys::CacheValue;
pub use text::PersistText;
