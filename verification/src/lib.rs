//! Ordering of a book's chapters by numeric name prefixes, and the outline
//! that follows from that order.

pub mod entry;
pub mod model;
pub mod name_codec;
pub mod order;
pub mod outline;
pub mod reorder;
pub mod sorting;
pub mod text;
pub mod title;
