//! Segment lifecycle manager and posting-list block codec of a search-index
//! storage engine: the block codec compresses fixed-size runs of integers
//! with byte-width packing, and the segment manager tracks which segments
//! exist, their visibility and their merge state, with atomic transitions.

pub mod codec;
pub mod segment;
pub mod segment_register;
pub mod segment_manager;
