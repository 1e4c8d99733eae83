pub mod aabb;
pub mod bin;
pub mod bvh;
pub mod bvh_node;
pub mod layout;
pub mod sah;
pub mod search;

pub use aabb::AABB;
pub use bin::Bin;
pub use bvh::BVH;
pub use bvh_node::BVHNode;
