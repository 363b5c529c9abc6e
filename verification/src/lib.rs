//! A per-key token-bucket rate limiter.
//!
//! Each key owns a bucket of tokens; a request is admitted when its key's
//! bucket still holds a token, and buckets refill at a configured rate as
//! time passes. Time enters the library as an explicit nanosecond timestamp,
//! so every admission decision is a pure, verified function of the limiter's
//! state and the given clock reading; callers obtain the timestamp from
//! whatever clock they trust.

pub mod bucket;
pub mod laws;
pub mod limiter;

pub use bucket::Bucket;
pub use bucket::BucketModel;
pub use limiter::ConfigError;
pub use limiter::RateLimiter;
