pub mod adjacency;
pub mod bounding_box;
pub mod buckets;
pub mod connectivity;
pub mod encoding;
pub mod groups;
pub mod spatial_hash;
pub mod types;
pub mod union_find;
