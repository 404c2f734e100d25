//! Storage engine core of oxdb: the oxdbin binary value format, slotted
//! page packing and the block geometry of a document file.
pub mod config;
pub mod doc;
pub mod oxdbin;
