//! Converts GTF/GFF3 annotation text into one coordinate span per identifier.
pub mod attr;
pub mod block;
pub mod cli;
pub mod gxf;
pub mod number;
pub mod summary;
pub mod text;
pub mod utils;
