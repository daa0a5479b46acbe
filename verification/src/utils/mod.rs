pub mod bits;
pub mod bfs;
