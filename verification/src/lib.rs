//! A mergeable quantile digest over integer samples.
//!
//! A digest summarises a stream of samples in bounded memory and answers
//! quantile queries about it: the median, a percentile, the extremes. Two
//! digests, filled on different machines or over different time windows,
//! can be merged into one that stands for both streams.
//!
//! The digest keeps an ordered list of weighted means (centroids) in place
//! of the samples themselves. Samples are signed 64-bit integers in a unit
//! of the caller's choosing, weights are sample counts. Streams of doubles
//! enter through [`sample`].
//!
//! What was chosen where a digest can be built in more than one way:
//!
//! - The scale function is `4 * total * q * (1 - q) / compression` ([`scale`]).
//! - A sample waits as a centroid of its own, at its place in the order,
//!   until the next recompression. Recompression is one pass over the
//!   centroids and starts when they are more than 20 times the compression
//!   parameter; a digest never holds more centroids than that ([`model`],
//!   [`store`]).
//! - A merged digest keeps the compression parameter of the receiver.
//! - A quantile outside 0 to 1 fails with `InvalidQuantile`, a quantile of
//!   an empty digest with `EmptyDigest`; the quantiles 0 and 1 are the
//!   smallest and the largest sample, exactly ([`quantile`]).
//! - A digest counts up to `MAX_TOTAL_WEIGHT` samples; an operation that
//!   would go beyond fails with `InvalidValue` and changes nothing.
//!
//! Every operation is specified over the mathematical view of the digest,
//! [`model::DigestView`], and proved against it; [`laws`] holds what is
//! proved across operations.

pub mod centroid;
pub mod digest;
pub mod error;
pub mod laws;
pub mod model;
pub mod quantile;
pub mod sample;
pub mod scale;
pub mod snapshot;
pub mod store;
pub mod tally;

pub use centroid::Centroid;
pub use digest::TDigest;
pub use error::DigestError;
