//! Reading and writing weighted undirected graphs in a plain edge-list
//! text format, built on graphix's compressed adjacency representation.
//!
//! Each line of the format is `<vertex> <vertex> <weight>`, separated by
//! whitespace. Vertex indices are 0-based in the file and in the graph.
//! Lines that do not hold exactly three tokens are ignored; a line that
//! holds three tokens of which one is not a number makes the whole read
//! fail.

pub mod graph;
pub mod laws;
pub mod read;
pub mod round_trip;
pub mod text;
pub mod write;

pub use read::{parse_edges, read, ReadError};
pub use text::Weight;
pub use write::write_edges;
