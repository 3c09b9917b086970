//! Duplicate-file detection core: a three-pass elimination pipeline over file
//! metadata records, a persistent hash-cache model with coalescing upserts,
//! content digests over head/tail and full byte streams, and the traversal
//! filter rules that decide which files a scan admits.

pub mod cache;
pub mod hasher;
pub mod pipeline;
pub mod scanner;
pub mod state_machine;

pub use cache::CacheEntry;
pub use cache::HashCache;
pub use hasher::ContentHasher;
pub use hasher::full_digest;
pub use hasher::partial_digest;
pub use pipeline::ScanResult;
pub use scanner::FileMetadata;
pub use scanner::ScanFilters;
