//! The integer core of a t-digest: a compact, mergeable sketch of a numeric
//! distribution made of centroids (a mean and a count of samples).
//!
//! `cluster` groups sorted samples, or weighted centroids, into clusters by one
//! left-to-right pass driven by a scale function given in fixed point; `query`
//! finds the centroid that a quantile query interpolates in; `merge` interleaves
//! two digests' centroids and reclusters them. The means themselves, and the
//! arcsine scale, are floating-point work left to the caller.
pub mod cluster;
pub mod merge;
pub mod query;
