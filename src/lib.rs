pub mod laws;
pub mod partition;
pub mod union_find;

pub use partition::Partition;
pub use union_find::UnionFind;
