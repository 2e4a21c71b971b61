//! Graph-based image segmentation, with the perceptual hashes and metadata
//! records that surround it.
pub mod config;
pub mod gbis;
pub mod hash;
pub mod identify;
pub mod tmdb;
