//! An on-demand image transformation library: a URL-safe codec for ordered
//! lists of image operations, a transformation engine over RGBA rasters, and
//! a bounded least-recently-used cache of fetched source bytes.
pub mod ops;
pub mod codec;
pub mod cache;
pub mod engine;
